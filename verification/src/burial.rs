//! Whether a placed static is mostly hidden below the terrain.
//!
//! Heights and areas are IEEE single-precision bit patterns.

use crate::float_bits::{
    at_least, below, calculated, calculates, higher, higher_of, is_at_least, number_lt,
};
use crate::model::DistantStatic;
use vstd::prelude::*;

verus! {

/// Limits by which a static counts as buried.
#[derive(Clone, Copy, Debug)]
pub struct BurialLimits {
    /// Height above which a triangle counts as exposed.
    pub exposed_height_epsilon: u32,
    /// Height at which one triangle is enough to keep the static.
    pub max_exposed_height: u32,
    /// Share of exposed area from which on the static is kept.
    pub exposed_area_ratio: u32,
    /// Area up to which a triangle does not count.
    pub area_epsilon: u32,
    /// Fewest triangles by which a static is judged.
    pub min_valid_triangles: usize,
}

/// How the bounding sphere of a subset lies to the terrain.
#[derive(Clone, Copy, Debug)]
pub struct SphereBurial {
    /// The sphere lies below the terrain.
    pub below: bool,
    /// Height of the sphere's lowest point over the terrain, where the terrain is known there.
    pub clearance: Option<u32>,
}

/// How a triangle lies to the terrain.
#[derive(Clone, Copy, Debug, PartialEq, Eq, Structural)]
pub struct TriangleBurial {
    pub area: u32,
    /// Whether the terrain is known below the middle of the triangle.
    pub known: bool,
    /// Height of the middle over the terrain.
    pub height: u32,
    /// Largest height of the middle and the corners over the terrain.
    pub exposure: u32,
}

/// Why a static is kept or not.
#[derive(Clone, Copy, Debug, PartialEq, Eq, Structural)]
pub enum BurialVerdict {
    /// A whole subset stands clear of the terrain.
    ClearanceShortcut,
    /// A triangle stands clear of the terrain.
    HeightEarly,
    /// Too little is known to judge.
    Insufficient,
    /// Mostly hidden.
    Buried,
    /// Enough of it shows.
    Exposed,
}

/// The verdict on a static and what it took.
#[derive(Clone, Copy, Debug, PartialEq, Eq, Structural)]
pub struct BurialReport {
    pub verdict: BurialVerdict,
    pub tris_visited: usize,
    pub centroid_height_samples: usize,
}

/// What has been seen of a static so far.
pub struct Survey {
    pub sampled: nat,
    pub valid: nat,
    pub total_area: u32,
    pub exposed_area: u32,
    pub highest: u32,
    pub visited: nat,
    pub probed: nat,
}

/// A survey in progress, or ended early.
pub enum Progress {
    Going(Survey),
    Ended(BurialVerdict, Survey),
}

/// `measure` answers every question, each with one answer.
pub open spec fn measures<M: Fn(usize, usize) -> TriangleBurial>(measure: M) -> bool {
    &&& forall|s: usize, t: usize| #[trigger] call_requires(measure, (s, t))
    &&& forall|s: usize, t: usize, a: TriangleBurial, b: TriangleBurial| #[trigger]
        call_ensures(measure, (s, t), a) && #[trigger] call_ensures(measure, (s, t), b) ==> a == b
}

/// The answer of `measure`.
pub open spec fn measured<M: Fn(usize, usize) -> TriangleBurial>(
    measure: M,
    s: usize,
    t: usize,
) -> TriangleBurial {
    choose|a: TriangleBurial| call_ensures(measure, (s, t), a)
}

/// `share` answers every question, each with one answer.
pub open spec fn shares<Q: Fn(usize) -> usize>(share: Q) -> bool {
    &&& forall|n: usize| #[trigger] call_requires(share, (n,))
    &&& forall|n: usize, x: usize, y: usize| #[trigger]
        call_ensures(share, (n,), x) && #[trigger] call_ensures(share, (n,), y) ==> x == y
}

/// The answer of `share`.
pub open spec fn shared<Q: Fn(usize) -> usize>(share: Q, n: usize) -> usize {
    choose|x: usize| call_ensures(share, (n,), x)
}

/// The clearance of a subset, where it is more than nothing.
pub open spec fn clear_height(sphere: SphereBurial, limits: BurialLimits) -> Option<u32> {
    match sphere.clearance {
        Some(height) if below(limits.exposed_height_epsilon, height) => Some(height),
        _ => None,
    }
}

/// The survey after one more triangle.
pub open spec fn after_triangle<P: Fn(u32, u32) -> u32>(
    sum: P,
    limits: BurialLimits,
    clearance: Option<u32>,
    triangle: TriangleBurial,
    now: Survey,
) -> Progress {
    let seen = Survey { sampled: now.sampled + 1, visited: now.visited + 1, ..now };
    if at_least(limits.area_epsilon, triangle.area) {
        Progress::Going(seen)
    } else if clearance is None && !triangle.known {
        Progress::Going(Survey { probed: seen.probed + 1, ..seen })
    } else {
        let height = match clearance {
            Some(height) => height,
            None => triangle.height,
        };
        let exposure = match clearance {
            Some(height) => height,
            None => triangle.exposure,
        };
        let next = Survey {
            valid: seen.valid + 1,
            total_area: calculated(sum, seen.total_area, triangle.area),
            exposed_area: if below(limits.exposed_height_epsilon, height) {
                calculated(sum, seen.exposed_area, triangle.area)
            } else {
                seen.exposed_area
            },
            highest: higher(seen.highest, exposure),
            probed: if clearance is None {
                seen.probed + 1
            } else {
                seen.probed
            },
            ..seen
        };
        if at_least(next.highest, limits.max_exposed_height) {
            Progress::Ended(BurialVerdict::HeightEarly, next)
        } else {
            Progress::Going(next)
        }
    }
}

/// The survey after the first `end` triangles of a subset.
pub open spec fn after_triangles<M: Fn(usize, usize) -> TriangleBurial, P: Fn(u32, u32) -> u32>(
    measure: M,
    sum: P,
    limits: BurialLimits,
    clearance: Option<u32>,
    s: usize,
    end: int,
    start: Survey,
) -> Progress
    decreases end,
{
    if end <= 0 {
        Progress::Going(start)
    } else {
        match after_triangles(measure, sum, limits, clearance, s, end - 1, start) {
            Progress::Going(now) => after_triangle(
                sum,
                limits,
                clearance,
                measured(measure, s, (end - 1) as usize),
                now,
            ),
            ended => ended,
        }
    }
}

/// Some triangle of a subset has an area.
pub open spec fn has_area<M: Fn(usize, usize) -> TriangleBurial>(
    measure: M,
    limits: BurialLimits,
    s: usize,
    count: int,
) -> bool {
    exists|t: int|
        0 <= t < count && below(
            limits.area_epsilon,
            (#[trigger] measured(measure, s, t as usize)).area,
        )
}

/// The survey after one more subset of `count` triangles.
pub open spec fn after_subset<M: Fn(usize, usize) -> TriangleBurial, P: Fn(u32, u32) -> u32>(
    measure: M,
    sum: P,
    limits: BurialLimits,
    sphere: SphereBurial,
    s: usize,
    count: nat,
    now: Survey,
) -> Progress {
    let clearance = clear_height(sphere, limits);
    if sphere.below {
        Progress::Going(Survey { sampled: now.sampled + count, ..now })
    } else if clearance is Some && at_least(clearance->0, limits.max_exposed_height) && has_area(
        measure,
        limits,
        s,
        count as int,
    ) {
        Progress::Ended(BurialVerdict::ClearanceShortcut, now)
    } else {
        after_triangles(measure, sum, limits, clearance, s, count as int, now)
    }
}

/// Triangles of each subset.
pub open spec fn triangle_counts(mesh: DistantStatic) -> Seq<nat> {
    mesh.subsets@.map_values(|subset: crate::model::Subset| subset.triangles@.len())
}

/// Triangles of the first `end` subsets.
pub open spec fn triangles_before(counts: Seq<nat>, end: int) -> nat
    decreases end,
{
    if end <= 0 {
        0
    } else {
        triangles_before(counts, end - 1) + counts[end - 1]
    }
}

/// Nothing has been seen yet.
pub open spec fn unseen() -> Survey {
    Survey {
        sampled: 0,
        valid: 0,
        total_area: 0,
        exposed_area: 0,
        highest: 0,
        visited: 0,
        probed: 0,
    }
}

/// The survey after the first `end` subsets.
pub open spec fn after_subsets<M: Fn(usize, usize) -> TriangleBurial, P: Fn(u32, u32) -> u32>(
    measure: M,
    sum: P,
    limits: BurialLimits,
    spheres: Seq<SphereBurial>,
    counts: Seq<nat>,
    end: int,
) -> Progress
    decreases end,
{
    if end <= 0 {
        Progress::Going(unseen())
    } else {
        match after_subsets(measure, sum, limits, spheres, counts, end - 1) {
            Progress::Going(now) => after_subset(
                measure,
                sum,
                limits,
                spheres[end - 1],
                (end - 1) as usize,
                counts[end - 1],
                now,
            ),
            ended => ended,
        }
    }
}

/// Triangles that must be judged: the share of those seen, at least the fewest, at most all.
pub open spec fn quorum<Q: Fn(usize) -> usize>(share: Q, limits: BurialLimits, sampled: nat) -> int {
    let part = shared(share, sampled as usize);
    let wanted = if part >= limits.min_valid_triangles {
        part
    } else {
        limits.min_valid_triangles
    };
    if wanted <= sampled {
        wanted as int
    } else {
        sampled as int
    }
}

/// The verdict on a survey.
pub open spec fn verdict_of<Q: Fn(usize) -> usize, D: Fn(u32, u32) -> u32>(
    share: Q,
    quotient: D,
    limits: BurialLimits,
    survey: Survey,
) -> BurialVerdict {
    if survey.valid < quorum(share, limits, survey.sampled) || at_least(0, survey.total_area) {
        BurialVerdict::Insufficient
    } else if below(survey.highest, limits.max_exposed_height) && below(
        calculated(quotient, survey.exposed_area, survey.total_area),
        limits.exposed_area_ratio,
    ) {
        BurialVerdict::Buried
    } else {
        BurialVerdict::Exposed
    }
}

/// The report on a survey.
pub open spec fn reports<Q: Fn(usize) -> usize, D: Fn(u32, u32) -> u32>(
    share: Q,
    quotient: D,
    limits: BurialLimits,
    progress: Progress,
    r: BurialReport,
) -> bool {
    match progress {
        Progress::Going(survey) => {
            &&& r.verdict == verdict_of(share, quotient, limits, survey)
            &&& r.tris_visited == survey.visited
            &&& r.centroid_height_samples == survey.probed
        },
        Progress::Ended(verdict, survey) => {
            &&& r.verdict == verdict
            &&& r.tris_visited == survey.visited
            &&& r.centroid_height_samples == survey.probed
        },
    }
}

/// The survey of the running code.
struct Tally {
    sampled: usize,
    valid: usize,
    total_area: u32,
    exposed_area: u32,
    highest: u32,
    visited: usize,
    probed: usize,
}

impl Tally {
    spec fn survey(&self) -> Survey {
        Survey {
            sampled: self.sampled as nat,
            valid: self.valid as nat,
            total_area: self.total_area,
            exposed_area: self.exposed_area,
            highest: self.highest,
            visited: self.visited as nat,
            probed: self.probed as nat,
        }
    }

    /// Counters stay within the triangles that were seen.
    spec fn wf(&self) -> bool {
        self.valid <= self.sampled && self.visited <= self.sampled && self.probed <= self.sampled
    }

    /// Adds a triangle; returns whether the survey ends.
    fn add_triangle<P: Fn(u32, u32) -> u32>(
        &mut self,
        sum: &P,
        limits: &BurialLimits,
        clearance: Option<u32>,
        triangle: TriangleBurial,
    ) -> (ended: bool)
        requires
            calculates(*sum),
            old(self).wf(),
            old(self).sampled < usize::MAX,
        ensures
            final(self).wf(),
            final(self).sampled == old(self).sampled + 1,
            after_triangle(*sum, *limits, clearance, triangle, old(self).survey()) == if ended {
                Progress::Ended(BurialVerdict::HeightEarly, final(self).survey())
            } else {
                Progress::Going(final(self).survey())
            },
    {
        self.sampled = self.sampled + 1;
        self.visited = self.visited + 1;
        if is_at_least(limits.area_epsilon, triangle.area) {
            return false;
        }
        let (height, exposure): (u32, u32) = match clearance {
            Some(height) => (height, height),
            None => {
                self.probed = self.probed + 1;
                if !triangle.known {
                    return false;
                }
                (triangle.height, triangle.exposure)
            },
        };
        self.valid = self.valid + 1;
        self.total_area = sum(self.total_area, triangle.area);
        self.highest = higher_of(self.highest, exposure);
        if number_lt(limits.exposed_height_epsilon, height) {
            self.exposed_area = sum(self.exposed_area, triangle.area);
        }
        is_at_least(self.highest, limits.max_exposed_height)
    }
}

fn any_area<M: Fn(usize, usize) -> TriangleBurial>(
    measure: &M,
    limits: &BurialLimits,
    s: usize,
    count: usize,
) -> (r: bool)
    requires
        measures(*measure),
    ensures
        r == has_area(*measure, *limits, s, count as int),
{
    let mut t: usize = 0;
    while t < count
        invariant
            t <= count,
            measures(*measure),
            forall|k: int|
                0 <= k < t ==> !below(
                    limits.area_epsilon,
                    (#[trigger] measured(*measure, s, k as usize)).area,
                ),
        decreases count - t,
    {
        let seen = measure(s, t);
        assert(seen == measured(*measure, s, t as int as usize));
        if number_lt(limits.area_epsilon, seen.area) {
            assert(below(limits.area_epsilon, measured(*measure, s, t as int as usize).area));
            return true;
        }
        t = t + 1;
    }
    false
}

fn survey_triangles<M: Fn(usize, usize) -> TriangleBurial, P: Fn(u32, u32) -> u32>(
    measure: &M,
    sum: &P,
    limits: &BurialLimits,
    clearance: Option<u32>,
    s: usize,
    count: usize,
    tally: &mut Tally,
) -> (ended: bool)
    requires
        measures(*measure),
        calculates(*sum),
        old(tally).wf(),
        old(tally).sampled + count <= usize::MAX,
    ensures
        final(tally).wf(),
        final(tally).sampled <= old(tally).sampled + count,
        !ended ==> final(tally).sampled == old(tally).sampled + count,
        after_triangles(
            *measure,
            *sum,
            *limits,
            clearance,
            s,
            count as int,
            old(tally).survey(),
        ) == if ended {
            Progress::Ended(BurialVerdict::HeightEarly, final(tally).survey())
        } else {
            Progress::Going(final(tally).survey())
        },
{
    let ghost start = tally.survey();
    let mut t: usize = 0;
    while t < count
        invariant
            t <= count,
            measures(*measure),
            calculates(*sum),
            tally.wf(),
            old(tally).sampled + count <= usize::MAX,
            tally.sampled == old(tally).sampled + t,
            start == old(tally).survey(),
            after_triangles(*measure, *sum, *limits, clearance, s, t as int, start)
                == Progress::Going(tally.survey()),
        decreases count - t,
    {
        let seen = measure(s, t);
        assert(seen == measured(*measure, s, t));
        if tally.add_triangle(sum, limits, clearance, seen) {
            proof {
                lemma_ended_stays(
                    *measure,
                    *sum,
                    *limits,
                    clearance,
                    s,
                    t + 1,
                    count as int,
                    start,
                );
            }
            return true;
        }
        t = t + 1;
    }
    false
}

proof fn lemma_ended_stays<M: Fn(usize, usize) -> TriangleBurial, P: Fn(u32, u32) -> u32>(
    measure: M,
    sum: P,
    limits: BurialLimits,
    clearance: Option<u32>,
    s: usize,
    end: int,
    count: int,
    start: Survey,
)
    requires
        0 <= end <= count,
        after_triangles(measure, sum, limits, clearance, s, end, start) is Ended,
    ensures
        after_triangles(measure, sum, limits, clearance, s, count, start) == after_triangles(
            measure,
            sum,
            limits,
            clearance,
            s,
            end,
            start,
        ),
    decreases count - end,
{
    if end < count {
        lemma_ended_stays(measure, sum, limits, clearance, s, end, count - 1, start);
    }
}

proof fn lemma_subsets_end<M: Fn(usize, usize) -> TriangleBurial, P: Fn(u32, u32) -> u32>(
    measure: M,
    sum: P,
    limits: BurialLimits,
    spheres: Seq<SphereBurial>,
    counts: Seq<nat>,
    end: int,
    total: int,
)
    requires
        0 <= end <= total,
        after_subsets(measure, sum, limits, spheres, counts, end) is Ended,
    ensures
        after_subsets(measure, sum, limits, spheres, counts, total) == after_subsets(
            measure,
            sum,
            limits,
            spheres,
            counts,
            end,
        ),
    decreases total - end,
{
    if end < total {
        lemma_subsets_end(measure, sum, limits, spheres, counts, end, total - 1);
    }
}

proof fn lemma_triangles_grow(counts: Seq<nat>, i: int, j: int)
    requires
        0 <= i <= j <= counts.len(),
    ensures
        triangles_before(counts, i) <= triangles_before(counts, j),
    decreases j - i,
{
    if i < j {
        lemma_triangles_grow(counts, i, j - 1);
    }
}

/// Judges whether a placed static is mostly hidden by the terrain.
///
/// `measure` says how a triangle of a subset lies to the terrain, `sum` adds and `quotient` divides
/// numbers, and `share` gives the part of so many triangles that must be judged.
pub fn is_buried<
    M: Fn(usize, usize) -> TriangleBurial,
    P: Fn(u32, u32) -> u32,
    D: Fn(u32, u32) -> u32,
    Q: Fn(usize) -> usize,
>(
    measure: &M,
    sum: &P,
    quotient: &D,
    share: &Q,
    limits: &BurialLimits,
    spheres: &[SphereBurial],
    distant_static: &DistantStatic,
) -> (r: BurialReport)
    requires
        measures(*measure),
        calculates(*sum),
        calculates(*quotient),
        shares(*share),
        spheres@.len() == distant_static.subsets@.len(),
        triangles_before(
            triangle_counts(*distant_static),
            distant_static.subsets@.len() as int,
        ) <= usize::MAX,
    ensures
        reports(
            *share,
            *quotient,
            *limits,
            after_subsets(
                *measure,
                *sum,
                *limits,
                spheres@,
                triangle_counts(*distant_static),
                spheres@.len() as int,
            ),
            r,
        ),
{
    let ghost counts = triangle_counts(*distant_static);
    let subsets = &distant_static.subsets;
    let mut tally = Tally {
        sampled: 0,
        valid: 0,
        total_area: 0,
        exposed_area: 0,
        highest: 0,
        visited: 0,
        probed: 0,
    };
    let mut s: usize = 0;
    while s < subsets.len()
        invariant
            s <= subsets@.len(),
            subsets@ == distant_static.subsets@,
            counts == triangle_counts(*distant_static),
            spheres@.len() == subsets@.len(),
            measures(*measure),
            calculates(*sum),
            triangles_before(counts, subsets@.len() as int) <= usize::MAX,
            tally.wf(),
            tally.sampled == triangles_before(counts, s as int),
            after_subsets(*measure, *sum, *limits, spheres@, counts, s as int) == Progress::Going(
                tally.survey(),
            ),
        decreases subsets@.len() - s,
    {
        let sphere = spheres[s];
        let count: usize = subsets[s].triangles.len();
        proof {
            assert(counts[s as int] == count);
            lemma_triangles_grow(counts, s + 1, subsets@.len() as int);
        }
        if sphere.below {
            tally.sampled = tally.sampled + count;
            s = s + 1;
            continue;
        }
        let clearance: Option<u32> = match sphere.clearance {
            Some(height) => if number_lt(limits.exposed_height_epsilon, height) {
                Some(height)
            } else {
                None
            },
            None => None,
        };
        let stands_clear: bool = match clearance {
            Some(height) => is_at_least(height, limits.max_exposed_height),
            None => false,
        };
        if stands_clear && any_area(measure, limits, s, count) {
            proof {
                lemma_subsets_end(
                    *measure,
                    *sum,
                    *limits,
                    spheres@,
                    counts,
                    s + 1,
                    spheres@.len() as int,
                );
            }
            return BurialReport {
                verdict: BurialVerdict::ClearanceShortcut,
                tris_visited: tally.visited,
                centroid_height_samples: tally.probed,
            };
        }
        if survey_triangles(measure, sum, limits, clearance, s, count, &mut tally) {
            proof {
                lemma_subsets_end(
                    *measure,
                    *sum,
                    *limits,
                    spheres@,
                    counts,
                    s + 1,
                    spheres@.len() as int,
                );
            }
            return BurialReport {
                verdict: BurialVerdict::HeightEarly,
                tris_visited: tally.visited,
                centroid_height_samples: tally.probed,
            };
        }
        s = s + 1;
    }
    let part: usize = share(tally.sampled);
    let wanted: usize = if part >= limits.min_valid_triangles {
        part
    } else {
        limits.min_valid_triangles
    };
    let needed: usize = if wanted <= tally.sampled {
        wanted
    } else {
        tally.sampled
    };
    let verdict = if tally.valid < needed || is_at_least(0, tally.total_area) {
        BurialVerdict::Insufficient
    } else {
        let ratio: u32 = quotient(tally.exposed_area, tally.total_area);
        if number_lt(tally.highest, limits.max_exposed_height) && number_lt(
            ratio,
            limits.exposed_area_ratio,
        ) {
            BurialVerdict::Buried
        } else {
            BurialVerdict::Exposed
        }
    };
    BurialReport {
        verdict,
        tris_visited: tally.visited,
        centroid_height_samples: tally.probed,
    }
}

/// A static of which a triangle stands clear by the limit is never buried.
pub proof fn lemma_clear_never_buried<Q: Fn(usize) -> usize, D: Fn(u32, u32) -> u32>(
    share: Q,
    quotient: D,
    limits: BurialLimits,
    survey: Survey,
)
    requires
        at_least(survey.highest, limits.max_exposed_height),
    ensures
        verdict_of(share, quotient, limits, survey) != BurialVerdict::Buried,
{
}

/// Counters over all statics that were judged.
#[derive(Clone, Copy, Debug, PartialEq, Eq, Structural)]
pub struct BurialStats {
    pub refs_considered: u64,
    pub tris_visited: u64,
    pub centroid_height_samples: u64,
    pub keep_clearance_shortcut: u64,
    pub keep_height_early: u64,
    pub keep_insufficient: u64,
    pub keep_exposed: u64,
    pub buried: u64,
}

impl Default for BurialStats {
    fn default() -> (r: Self)
        ensures
            r == no_stats(),
    {
        BurialStats {
            refs_considered: 0,
            tris_visited: 0,
            centroid_height_samples: 0,
            keep_clearance_shortcut: 0,
            keep_height_early: 0,
            keep_insufficient: 0,
            keep_exposed: 0,
            buried: 0,
        }
    }
}

/// Nothing judged yet.
pub open spec fn no_stats() -> BurialStats {
    BurialStats {
        refs_considered: 0,
        tris_visited: 0,
        centroid_height_samples: 0,
        keep_clearance_shortcut: 0,
        keep_height_early: 0,
        keep_insufficient: 0,
        keep_exposed: 0,
        buried: 0,
    }
}

/// Every judged static met one verdict.
pub open spec fn stats_add_up(stats: BurialStats) -> bool {
    stats.refs_considered == stats.keep_clearance_shortcut + stats.keep_height_early
        + stats.keep_insufficient + stats.keep_exposed + stats.buried
}

/// The counters with one more report.
pub open spec fn with_report(stats: BurialStats, report: BurialReport) -> BurialStats {
    let counted = BurialStats {
        refs_considered: (stats.refs_considered + 1) as u64,
        tris_visited: (stats.tris_visited + report.tris_visited) as u64,
        centroid_height_samples: (stats.centroid_height_samples
            + report.centroid_height_samples) as u64,
        ..stats
    };
    match report.verdict {
        BurialVerdict::ClearanceShortcut => BurialStats {
            keep_clearance_shortcut: (stats.keep_clearance_shortcut + 1) as u64,
            ..counted
        },
        BurialVerdict::HeightEarly => BurialStats {
            keep_height_early: (stats.keep_height_early + 1) as u64,
            ..counted
        },
        BurialVerdict::Insufficient => BurialStats {
            keep_insufficient: (stats.keep_insufficient + 1) as u64,
            ..counted
        },
        BurialVerdict::Exposed => BurialStats {
            keep_exposed: (stats.keep_exposed + 1) as u64,
            ..counted
        },
        BurialVerdict::Buried => BurialStats { buried: (stats.buried + 1) as u64, ..counted },
    }
}

impl BurialStats {
    /// Counts a report. Returns whether the static is buried.
    pub fn record(&mut self, report: &BurialReport) -> (r: bool)
        requires
            stats_add_up(*old(self)),
            old(self).refs_considered < u64::MAX,
            old(self).tris_visited + report.tris_visited <= u64::MAX,
            old(self).centroid_height_samples + report.centroid_height_samples <= u64::MAX,
        ensures
            *final(self) == with_report(*old(self), *report),
            stats_add_up(*final(self)),
            r == (report.verdict == BurialVerdict::Buried),
    {
        self.refs_considered = self.refs_considered + 1;
        self.tris_visited = self.tris_visited + report.tris_visited as u64;
        self.centroid_height_samples =
        self.centroid_height_samples + report.centroid_height_samples as u64;
        match report.verdict {
            BurialVerdict::ClearanceShortcut => {
                self.keep_clearance_shortcut = self.keep_clearance_shortcut + 1;
                false
            },
            BurialVerdict::HeightEarly => {
                self.keep_height_early = self.keep_height_early + 1;
                false
            },
            BurialVerdict::Insufficient => {
                self.keep_insufficient = self.keep_insufficient + 1;
                false
            },
            BurialVerdict::Exposed => {
                self.keep_exposed = self.keep_exposed + 1;
                false
            },
            BurialVerdict::Buried => {
                self.buried = self.buried + 1;
                true
            },
        }
    }
}

} // verus!
