//! Diagnostics of the merge simplification policy, and what it asks for.

use crate::float_bits::{below, finite, is_finite, is_signed, magnitude, number_lt};
use crate::merge::lod_index::{LodIndex, LodRequest};
use crate::merge::plan::ONE_BITS;
use crate::model::{DistantStatic, Subset};
use crate::model::append::SubterrainCullTally;
use crate::model::simplify::{simplifiable, SimplificationTarget};
use crate::sort::{lemma_same_multiset, ranked, sort_ranked, Ranked};
use crate::text_map::TextMap;
use vstd::prelude::*;

verus! {

// ---------------------------------------------------------------------------------------------
// Distributions
// ---------------------------------------------------------------------------------------------

/// A single-precision number by its bits, in the total order that tells the zeros apart.
#[derive(Clone, Copy, Debug)]
pub struct OrderedBits {
    pub bits: u32,
}

/// Place in the total order.
pub open spec fn total_position(bits: u32) -> int {
    if is_signed(bits) {
        -1 - magnitude(bits) as int
    } else {
        magnitude(bits) as int
    }
}

fn total_position_of(bits: u32) -> (r: i64)
    ensures
        r == total_position(bits),
{
    if bits >= 0x8000_0000 {
        -1 - ((bits % 0x8000_0000) as i64)
    } else {
        (bits % 0x8000_0000) as i64
    }
}

impl Ranked for OrderedBits {
    open spec fn ranks_le(self, other: Self) -> bool {
        total_position(self.bits) <= total_position(other.bits)
    }

    proof fn rank_total(a: Self, b: Self) {
    }

    proof fn rank_transitive(a: Self, b: Self, c: Self) {
    }

    fn rank_le(&self, other: &Self) -> (r: bool) {
        total_position_of(self.bits) <= total_position_of(other.bits)
    }
}

/// Four-point summary of a distribution; the values are IEEE single-precision bit patterns.
#[derive(Clone, Copy, Debug, PartialEq, Eq, Structural)]
pub struct MergeValueDistribution {
    /// Minimum observed value.
    pub min: u32,
    /// Median observed value.
    pub p50: u32,
    /// 95th-percentile observed value.
    pub p95: u32,
    /// Maximum observed value.
    pub max: u32,
}

impl Default for MergeValueDistribution {
    fn default() -> (r: Self)
        ensures
            r == (MergeValueDistribution { min: 0, p50: 0, p95: 0, max: 0 }),
    {
        MergeValueDistribution { min: 0, p50: 0, p95: 0, max: 0 }
    }
}

/// The finite values among the first `end`, in order.
pub open spec fn finite_values(values: Seq<u32>, end: int) -> Seq<OrderedBits>
    decreases end,
{
    if end <= 0 {
        Seq::empty()
    } else if finite(values[end - 1]) {
        finite_values(values, end - 1).push(OrderedBits { bits: values[end - 1] })
    } else {
        finite_values(values, end - 1)
    }
}

/// Position of a percentile among `count` sorted values.
pub open spec fn percentile_position(count: nat, percent: nat) -> int {
    (count - 1) * percent / 100
}

/// The summary reads the sorted finite values.
pub open spec fn reads_sorted(
    summary: MergeValueDistribution,
    values: Seq<u32>,
    sorted: Seq<OrderedBits>,
) -> bool {
    &&& ranked(sorted)
    &&& sorted.to_multiset() == finite_values(values, values.len() as int).to_multiset()
    &&& sorted.len() == finite_values(values, values.len() as int).len()
    &&& summary.min == sorted[0].bits
    &&& summary.p50 == sorted[percentile_position(sorted.len(), 50)].bits
    &&& summary.p95 == sorted[percentile_position(sorted.len(), 95)].bits
    &&& summary.max == sorted[sorted.len() - 1].bits
}

/// The summary of the finite values; of none, all zeros.
pub open spec fn summarizes(summary: MergeValueDistribution, values: Seq<u32>) -> bool {
    if finite_values(values, values.len() as int).len() == 0 {
        summary == (MergeValueDistribution { min: 0, p50: 0, p95: 0, max: 0 })
    } else {
        exists|sorted: Seq<OrderedBits>| #[trigger] reads_sorted(summary, values, sorted)
    }
}

impl MergeValueDistribution {
    /// Summarizes the finite values.
    pub fn from_values(values: &[u32]) -> (r: Self)
        requires
            values@.len() <= usize::MAX / 100,
        ensures
            summarizes(r, values@),
    {
        let mut kept: Vec<OrderedBits> = Vec::new();
        let mut i: usize = 0;
        while i < values.len()
            invariant
                i <= values@.len(),
                kept@ == finite_values(values@, i as int),
                kept@.len() <= i,
            decreases values@.len() - i,
        {
            if is_finite(values[i]) {
                kept.push(OrderedBits { bits: values[i] });
            }
            i = i + 1;
        }
        if kept.len() == 0 {
            return MergeValueDistribution::default();
        }
        let ghost all = kept@;
        let sorted = sort_ranked(kept);
        proof {
            lemma_same_multiset(sorted@, all);
            let n = sorted@.len() as int;
            assert(0 <= (n - 1) * 50 / 100 < n);
            assert(0 <= (n - 1) * 95 / 100 < n);
        }
        let last: usize = sorted.len() - 1;
        let summary = MergeValueDistribution {
            min: sorted[0].bits,
            p50: sorted[last * 50 / 100].bits,
            p95: sorted[last * 95 / 100].bits,
            max: sorted[last].bits,
        };
        assert(reads_sorted(summary, values@, sorted@));
        summary
    }
}

// ---------------------------------------------------------------------------------------------
// Members
// ---------------------------------------------------------------------------------------------

/// What is measured of one subset of a member. All numbers are bit patterns.
#[derive(Clone, Copy, Debug)]
pub struct SubsetReading {
    /// Largest side of the subset's bounding box.
    pub extent: u32,
    /// The group's extent divided by the subset's extent at the member's scale.
    pub ratio: u32,
    /// The simplification target of the subset.
    pub target: SimplificationTarget,
}

/// What is measured of one member.
#[derive(Debug)]
pub struct MemberReading {
    /// The member's static.
    pub static_key: String,
    /// The member's place on the ladder of errors.
    pub bucket: i32,
    /// One reading per subset of the static.
    pub subsets: Vec<SubsetReading>,
}

/// The reading of the subset counts: it may be simplified and has an extent.
pub open spec fn counts(subset: Subset, reading: SubsetReading) -> bool {
    simplifiable(subset) && finite(reading.extent) && below(0, reading.extent)
}

/// Totals over subsets.
pub struct Survey {
    pub subsets: nat,
    pub triangles: nat,
    pub over_one: nat,
    pub over_one_triangles: nat,
    pub capped: nat,
    pub second_pass: nat,
    pub ratios: Seq<u32>,
    pub requested: Seq<u32>,
    pub effective: Seq<u32>,
}

/// Nothing surveyed.
pub open spec fn no_survey() -> Survey {
    Survey {
        subsets: 0,
        triangles: 0,
        over_one: 0,
        over_one_triangles: 0,
        capped: 0,
        second_pass: 0,
        ratios: Seq::empty(),
        requested: Seq::empty(),
        effective: Seq::empty(),
    }
}

/// One where the condition holds.
pub open spec fn unit(condition: bool) -> nat {
    if condition {
        1
    } else {
        0
    }
}

/// The survey with one more subset.
pub open spec fn with_reading(survey: Survey, subset: Subset, reading: SubsetReading) -> Survey {
    let triangles = subset.triangles@.len();
    let base = Survey {
        subsets: survey.subsets + 1,
        triangles: survey.triangles + triangles,
        ..survey
    };
    if !counts(subset, reading) {
        base
    } else {
        let over = below(ONE_BITS, reading.target.requested);
        Survey {
            over_one: survey.over_one + unit(over),
            over_one_triangles: survey.over_one_triangles + if over {
                triangles
            } else {
                0
            },
            capped: survey.capped + unit(reading.target.capped),
            second_pass: survey.second_pass + unit(reading.target.should_simplify),
            ratios: survey.ratios.push(reading.ratio),
            requested: survey.requested.push(reading.target.requested),
            effective: survey.effective.push(reading.target.effective),
            ..base
        }
    }
}

/// The survey with the first `end` subsets of a member.
pub open spec fn with_readings(
    survey: Survey,
    subsets: Seq<Subset>,
    readings: Seq<SubsetReading>,
    end: int,
) -> Survey
    decreases end,
{
    if end <= 0 {
        survey
    } else {
        with_reading(
            with_readings(survey, subsets, readings, end - 1),
            subsets[end - 1],
            readings[end - 1],
        )
    }
}

/// The survey of the first `end` members.
pub open spec fn surveyed(
    members: Seq<MemberReading>,
    statics: Map<Seq<char>, DistantStatic>,
    end: int,
) -> Survey
    decreases end,
{
    if end <= 0 {
        no_survey()
    } else {
        let member = members[end - 1];
        let subsets = statics[member.static_key@].subsets@;
        with_readings(
            surveyed(members, statics, end - 1),
            subsets,
            member.subsets@,
            subsets.len() as int,
        )
    }
}

/// Some subset among the first `end` asks for another simplification pass.
pub open spec fn asks_lod(subsets: Seq<Subset>, readings: Seq<SubsetReading>, end: int) -> bool {
    exists|s: int|
        0 <= s < end && #[trigger] counts(subsets[s], readings[s])
            && readings[s].target.should_simplify
}

/// What the first `end` members ask for, in order.
pub open spec fn requests(
    members: Seq<MemberReading>,
    statics: Map<Seq<char>, DistantStatic>,
    end: int,
) -> Seq<LodRequest>
    decreases end,
{
    if end <= 0 {
        Seq::empty()
    } else {
        let member = members[end - 1];
        let subsets = statics[member.static_key@].subsets@;
        if asks_lod(subsets, member.subsets@, subsets.len() as int) {
            requests(members, statics, end - 1).push((member.static_key@, member.bucket))
        } else {
            requests(members, statics, end - 1)
        }
    }
}

/// The distinct ones among the first `end`, in order of first appearance.
pub open spec fn distinct_requests(list: Seq<LodRequest>, end: int) -> Seq<LodRequest>
    decreases end,
{
    if end <= 0 {
        Seq::empty()
    } else {
        let before = distinct_requests(list, end - 1);
        if before.contains(list[end - 1]) {
            before
        } else {
            before.push(list[end - 1])
        }
    }
}

/// A request for simplified geometry.
#[derive(Debug)]
pub struct LodKey {
    pub static_key: String,
    pub bucket: i32,
}

/// The requests as plain values.
pub open spec fn lod_views(keys: Seq<LodKey>) -> Seq<LodRequest> {
    keys.map_values(|key: LodKey| (key.static_key@, key.bucket))
}

/// Every member's static is there, with one reading per subset.
pub open spec fn readings_ready(
    members: Seq<MemberReading>,
    statics: Map<Seq<char>, DistantStatic>,
) -> bool {
    forall|m: int|
        0 <= m < members.len() ==> statics.dom().contains((#[trigger] members[m]).static_key@)
            && members[m].subsets@.len() == statics[members[m].static_key@].subsets@.len()
}

/// Diagnostics for the exterior-reference merge simplification policy.
#[derive(Clone, Copy, Debug, PartialEq, Eq, Structural)]
pub struct MergeSimplificationMetrics {
    /// Number of multi-reference merge groups processed.
    pub group_count: usize,
    /// Number of references included across all merge groups.
    pub member_count: usize,
    /// Number of source subsets included across all merge-group members.
    pub member_subset_count: usize,
    /// Number of member requests that required an additional simplification pass.
    pub lod_cache_request_count: usize,
    /// Number of unique entries materialized for those requests.
    pub lod_cache_entry_count: usize,
    /// Number of requests served by reusing an existing entry.
    pub lod_cache_reuse_count: usize,
    /// Number of member subsets simplified again after the initial per-static pass.
    pub second_pass_subset_count: usize,
    /// Number of member subsets whose requested relative target was reduced by the cap.
    pub capped_subset_count: usize,
    /// Number of member subsets whose uncapped relative target exceeded one.
    pub requested_relative_target_over_one_subset_count: usize,
    /// Source triangle count of member subsets whose uncapped relative target exceeded one.
    pub requested_relative_target_over_one_triangle_count: usize,
    /// Instanced source triangle count before any merge-stage second pass.
    pub member_triangle_count_before_second_pass: usize,
    /// Instanced triangle count after selecting simplified or unchanged member subsets.
    pub member_triangle_count_after_second_pass: usize,
    /// Number of non-empty synthetic merged statics emitted.
    pub emitted_merged_static_count: usize,
    /// Number of subsets across synthetic merged statics.
    pub emitted_merged_subset_count: usize,
    /// Triangle count in the final synthetic merged statics.
    pub merged_triangle_count: usize,
    /// Triangles removed by the below-terrain cull.
    pub subterrain_culled_triangle_count: usize,
    /// Vertices removed alongside the below-terrain culled triangles.
    pub subterrain_culled_vertex_count: usize,
    /// Distribution of maximum group extents in world units.
    pub group_extent: MergeValueDistribution,
    /// Distribution of group extent divided by each eligible member subset's world-space extent.
    pub group_to_member_extent_ratio: MergeValueDistribution,
    /// Distribution of uncapped relative targets.
    pub requested_relative_target: MergeValueDistribution,
    /// Distribution of relative targets after applying the configured cap.
    pub effective_relative_target: MergeValueDistribution,
}

impl Default for MergeSimplificationMetrics {
    fn default() -> (r: Self)
        ensures
            r.group_count == 0,
            r.member_triangle_count_after_second_pass == 0,
            r.emitted_merged_static_count == 0,
            r.emitted_merged_subset_count == 0,
            r.merged_triangle_count == 0,
            r.subterrain_culled_triangle_count == 0,
            r.subterrain_culled_vertex_count == 0,
            r.member_count == 0,
            r.member_subset_count == 0,
            r.lod_cache_request_count == 0,
            r.lod_cache_entry_count == 0,
            r.lod_cache_reuse_count == 0,
            r.second_pass_subset_count == 0,
            r.capped_subset_count == 0,
            r.requested_relative_target_over_one_subset_count == 0,
            r.requested_relative_target_over_one_triangle_count == 0,
            r.member_triangle_count_before_second_pass == 0,
    {
        MergeSimplificationMetrics {
            group_count: 0,
            member_count: 0,
            member_subset_count: 0,
            lod_cache_request_count: 0,
            lod_cache_entry_count: 0,
            lod_cache_reuse_count: 0,
            second_pass_subset_count: 0,
            capped_subset_count: 0,
            requested_relative_target_over_one_subset_count: 0,
            requested_relative_target_over_one_triangle_count: 0,
            member_triangle_count_before_second_pass: 0,
            member_triangle_count_after_second_pass: 0,
            emitted_merged_static_count: 0,
            emitted_merged_subset_count: 0,
            merged_triangle_count: 0,
            subterrain_culled_triangle_count: 0,
            subterrain_culled_vertex_count: 0,
            group_extent: MergeValueDistribution::default(),
            group_to_member_extent_ratio: MergeValueDistribution::default(),
            requested_relative_target: MergeValueDistribution::default(),
            effective_relative_target: MergeValueDistribution::default(),
        }
    }
}

/// The survey in progress.
struct Totals {
    subsets: usize,
    triangles: usize,
    over_one: usize,
    over_one_triangles: usize,
    capped: usize,
    second_pass: usize,
    ratios: Vec<u32>,
    requested: Vec<u32>,
    effective: Vec<u32>,
}

impl View for Totals {
    type V = Survey;

    closed spec fn view(&self) -> Survey {
        Survey {
            subsets: self.subsets as nat,
            triangles: self.triangles as nat,
            over_one: self.over_one as nat,
            over_one_triangles: self.over_one_triangles as nat,
            capped: self.capped as nat,
            second_pass: self.second_pass as nat,
            ratios: self.ratios@,
            requested: self.requested@,
            effective: self.effective@,
        }
    }
}

/// Counters never exceed the counts of subsets and triangles.
pub open spec fn survey_bounded(survey: Survey) -> bool {
    &&& survey.over_one <= survey.subsets
    &&& survey.over_one_triangles <= survey.triangles
    &&& survey.capped <= survey.subsets
    &&& survey.second_pass <= survey.subsets
    &&& survey.ratios.len() <= survey.subsets
    &&& survey.requested.len() <= survey.subsets
    &&& survey.effective.len() <= survey.subsets
}

proof fn lemma_readings_grow(
    survey: Survey,
    subsets: Seq<Subset>,
    readings: Seq<SubsetReading>,
    i: int,
    j: int,
)
    requires
        0 <= i <= j,
    ensures
        with_readings(survey, subsets, readings, i).subsets <= with_readings(
            survey,
            subsets,
            readings,
            j,
        ).subsets,
        with_readings(survey, subsets, readings, i).triangles <= with_readings(
            survey,
            subsets,
            readings,
            j,
        ).triangles,
        survey_bounded(survey) ==> survey_bounded(with_readings(survey, subsets, readings, j)),
    decreases j,
{
    if i < j {
        lemma_readings_grow(survey, subsets, readings, i, j - 1);
    } else if j > 0 {
        lemma_readings_grow(survey, subsets, readings, j - 1, j - 1);
    }
}

proof fn lemma_survey_grows(
    members: Seq<MemberReading>,
    statics: Map<Seq<char>, DistantStatic>,
    i: int,
    j: int,
)
    requires
        0 <= i <= j,
    ensures
        surveyed(members, statics, i).subsets <= surveyed(members, statics, j).subsets,
        surveyed(members, statics, i).triangles <= surveyed(members, statics, j).triangles,
        survey_bounded(surveyed(members, statics, j)),
    decreases j,
{
    if j > 0 {
        let member = members[j - 1];
        let subsets = statics[member.static_key@].subsets@;
        lemma_readings_grow(
            surveyed(members, statics, j - 1),
            subsets,
            member.subsets@,
            0,
            subsets.len() as int,
        );
        if i < j {
            lemma_survey_grows(members, statics, i, j - 1);
        } else {
            lemma_survey_grows(members, statics, j - 1, j - 1);
        }
    }
}

/// Surveys one member. Returns whether it asks for another simplification pass.
fn survey_member(subsets: &Vec<Subset>, readings: &Vec<SubsetReading>, totals: &mut Totals) -> (r:
    bool)
    requires
        subsets@.len() == readings@.len(),
        survey_bounded(old(totals)@),
        with_readings(old(totals)@, subsets@, readings@, subsets@.len() as int).subsets
            <= usize::MAX,
        with_readings(old(totals)@, subsets@, readings@, subsets@.len() as int).triangles
            <= usize::MAX,
    ensures
        final(totals)@ == with_readings(
            old(totals)@,
            subsets@,
            readings@,
            subsets@.len() as int,
        ),
        r == asks_lod(subsets@, readings@, subsets@.len() as int),
{
    let ghost start = totals@;
    let mut asks = false;
    let mut s: usize = 0;
    while s < subsets.len()
        invariant
            s <= subsets@.len() == readings@.len(),
            start == old(totals)@,
            survey_bounded(start),
            with_readings(start, subsets@, readings@, subsets@.len() as int).subsets
                <= usize::MAX,
            with_readings(start, subsets@, readings@, subsets@.len() as int).triangles
                <= usize::MAX,
            totals@ == with_readings(start, subsets@, readings@, s as int),
            asks == asks_lod(subsets@, readings@, s as int),
        decreases subsets@.len() - s,
    {
        let ghost before = totals@;
        proof {
            lemma_readings_grow(start, subsets@, readings@, s + 1, subsets@.len() as int);
            lemma_readings_grow(start, subsets@, readings@, s as int, s as int);
        }
        let subset = &subsets[s];
        let reading: SubsetReading = readings[s];
        let triangles: usize = subset.triangles.len();
        totals.subsets = totals.subsets + 1;
        totals.triangles = totals.triangles + triangles;
        if subset.allows_simplification() && is_finite(reading.extent) && number_lt(
            0,
            reading.extent,
        ) {
            assert(counts(subsets@[s as int], readings@[s as int]));
            totals.ratios.push(reading.ratio);
            totals.requested.push(reading.target.requested);
            totals.effective.push(reading.target.effective);
            if number_lt(ONE_BITS, reading.target.requested) {
                totals.over_one = totals.over_one + 1;
                totals.over_one_triangles = totals.over_one_triangles + triangles;
            }
            if reading.target.capped {
                totals.capped = totals.capped + 1;
            }
            if reading.target.should_simplify {
                totals.second_pass = totals.second_pass + 1;
                asks = true;
            }
        }
        proof {
            assert(totals@ == with_reading(before, *subset, reading));
            assert(asks == asks_lod(subsets@, readings@, s + 1)) by {
                if asks_lod(subsets@, readings@, s + 1) && !asks_lod(
                    subsets@,
                    readings@,
                    s as int,
                ) {
                    let k = choose|k: int|
                        0 <= k < s + 1 && #[trigger] counts(subsets@[k], readings@[k])
                            && readings@[k].target.should_simplify;
                    assert(k == s);
                }
                if asks_lod(subsets@, readings@, s as int) {
                    let k = choose|k: int|
                        0 <= k < s && #[trigger] counts(subsets@[k], readings@[k])
                            && readings@[k].target.should_simplify;
                    assert(counts(subsets@[k], readings@[k]));
                }
            }
        }
        s = s + 1;
    }
    asks
}

/// The metrics say what the survey found.
pub open spec fn reports_survey(
    metrics: MergeSimplificationMetrics,
    members: Seq<MemberReading>,
    statics: Map<Seq<char>, DistantStatic>,
) -> bool {
    let survey = surveyed(members, statics, members.len() as int);
    let asked = requests(members, statics, members.len() as int);
    let entries = distinct_requests(asked, asked.len() as int);
    &&& metrics.member_count == members.len()
    &&& metrics.member_subset_count == survey.subsets
    &&& metrics.member_triangle_count_before_second_pass == survey.triangles
    &&& metrics.requested_relative_target_over_one_subset_count == survey.over_one
    &&& metrics.requested_relative_target_over_one_triangle_count == survey.over_one_triangles
    &&& metrics.capped_subset_count == survey.capped
    &&& metrics.second_pass_subset_count == survey.second_pass
    &&& metrics.lod_cache_request_count == asked.len()
    &&& metrics.lod_cache_entry_count == entries.len()
    &&& metrics.lod_cache_reuse_count == asked.len() - entries.len()
    &&& summarizes(metrics.group_to_member_extent_ratio, survey.ratios)
    &&& summarizes(metrics.requested_relative_target, survey.requested)
    &&& summarizes(metrics.effective_relative_target, survey.effective)
}

/// Surveys the members of the selected groups: the metrics, and each distinct request for
/// simplified geometry once.
pub fn survey_members(
    group_extents: &[u32],
    members: &[MemberReading],
    statics: &TextMap<DistantStatic>,
) -> (r: (MergeSimplificationMetrics, Vec<LodKey>))
    requires
        statics.wf(),
        readings_ready(members@, statics@),
        surveyed(members@, statics@, members@.len() as int).subsets <= usize::MAX / 100,
        surveyed(members@, statics@, members@.len() as int).triangles <= usize::MAX,
        group_extents@.len() <= usize::MAX / 100,
    ensures
        r.0.group_count == group_extents@.len(),
        summarizes(r.0.group_extent, group_extents@),
        reports_survey(r.0, members@, statics@),
        r.0.member_triangle_count_after_second_pass == 0,
        r.0.emitted_merged_static_count == 0,
        r.0.emitted_merged_subset_count == 0,
        r.0.merged_triangle_count == 0,
        r.0.subterrain_culled_triangle_count == 0,
        r.0.subterrain_culled_vertex_count == 0,
        ({
            let asked = requests(members@, statics@, members@.len() as int);
            lod_views(r.1@) == distinct_requests(asked, asked.len() as int)
        }),
{
    let mut totals = Totals {
        subsets: 0,
        triangles: 0,
        over_one: 0,
        over_one_triangles: 0,
        capped: 0,
        second_pass: 0,
        ratios: Vec::new(),
        requested: Vec::new(),
        effective: Vec::new(),
    };
    let mut needed: Vec<LodKey> = Vec::new();
    let mut listed = LodIndex::new();
    let mut request_count: usize = 0;
    let mut m: usize = 0;
    let ghost count = members@.len() as int;
    proof {
        assert(totals@.ratios =~= Seq::empty());
        assert(totals@.requested =~= Seq::empty());
        assert(totals@.effective =~= Seq::empty());
        assert(totals@ == no_survey());
        assert(lod_views(needed@) =~= distinct_requests(requests(members@, statics@, 0), 0));
    }
    while m < members.len()
        invariant
            m <= members@.len(),
            count == members@.len(),
            statics.wf(),
            readings_ready(members@, statics@),
            surveyed(members@, statics@, count).subsets <= usize::MAX / 100,
            surveyed(members@, statics@, count).triangles <= usize::MAX,
            totals@ == surveyed(members@, statics@, m as int),
            request_count <= m,
            request_count == requests(members@, statics@, m as int).len(),
            lod_views(needed@) == distinct_requests(
                requests(members@, statics@, m as int),
                request_count as int,
            ),
            needed@.len() <= request_count,
            listed.wf(),
            forall|request: LodRequest| #[trigger]
                listed@.dom().contains(request) <==> lod_views(needed@).contains(request),
        decreases members@.len() - m,
    {
        let member = &members[m];
        proof {
            assert(statics@.dom().contains(members@[m as int].static_key@));
            lemma_survey_grows(members@, statics@, m + 1, count);
            lemma_survey_grows(members@, statics@, m as int, m as int);
        }
        let subsets = &statics.get(member.static_key.as_str()).unwrap().subsets;
        let ghost asked = requests(members@, statics@, m as int);
        let ghost before = needed@;
        if survey_member(subsets, &member.subsets, &mut totals) {
            let ghost request = (member.static_key@, member.bucket);
            let ghost is_listed = lod_views(before).contains(request);
            if listed.get(member.static_key.as_str(), member.bucket).is_none() {
                listed.insert(&member.static_key, member.bucket, needed.len());
                needed.push(
                    LodKey { static_key: member.static_key.clone(), bucket: member.bucket },
                );
            }
            request_count = request_count + 1;
            proof {
                let now = requests(members@, statics@, m + 1);
                assert(now == asked.push(request));
                lemma_distinct_prefix(asked, now, asked.len() as int);
                if !is_listed {
                    let grown = lod_views(before).push(request);
                    assert(lod_views(needed@) =~= grown);
                    assert forall|other: LodRequest| #[trigger]
                        listed@.dom().contains(other) <==> grown.contains(other) by {
                        if lod_views(before).contains(other) {
                            let k = choose|k: int|
                                0 <= k < before.len() && lod_views(before)[k] == other;
                            assert(grown[k] == other);
                        }
                        if other == request {
                            assert(grown[before.len() as int] == other);
                        }
                        if grown.contains(other) && other != request {
                            let k = choose|k: int| 0 <= k < grown.len() && grown[k] == other;
                            assert(lod_views(before)[k] == other);
                        }
                    }
                }
            }
        }
        m = m + 1;
    }
    proof {
        lemma_survey_grows(members@, statics@, count, count);
        assert(lod_views(needed@).len() == needed@.len());
    }
    let mut metrics = MergeSimplificationMetrics::default();
    metrics.group_count = group_extents.len();
    metrics.member_count = members.len();
    metrics.member_subset_count = totals.subsets;
    metrics.member_triangle_count_before_second_pass = totals.triangles;
    metrics.requested_relative_target_over_one_subset_count = totals.over_one;
    metrics.requested_relative_target_over_one_triangle_count = totals.over_one_triangles;
    metrics.capped_subset_count = totals.capped;
    metrics.second_pass_subset_count = totals.second_pass;
    metrics.lod_cache_request_count = request_count;
    metrics.lod_cache_entry_count = needed.len();
    metrics.lod_cache_reuse_count = request_count - needed.len();
    metrics.group_extent = MergeValueDistribution::from_values(group_extents);
    metrics.group_to_member_extent_ratio = MergeValueDistribution::from_values(
        totals.ratios.as_slice(),
    );
    metrics.requested_relative_target = MergeValueDistribution::from_values(
        totals.requested.as_slice(),
    );
    metrics.effective_relative_target = MergeValueDistribution::from_values(
        totals.effective.as_slice(),
    );
    (metrics, needed)
}

proof fn lemma_distinct_prefix(list: Seq<LodRequest>, longer: Seq<LodRequest>, end: int)
    requires
        0 <= end <= list.len() <= longer.len(),
        forall|i: int| 0 <= i < list.len() ==> #[trigger] longer[i] == list[i],
    ensures
        distinct_requests(longer, end) == distinct_requests(list, end),
    decreases end,
{
    if end > 0 {
        lemma_distinct_prefix(list, longer, end - 1);
        assert(longer[end - 1] == list[end - 1]);
    }
}

// ---------------------------------------------------------------------------------------------
// Geometry after the second pass
// ---------------------------------------------------------------------------------------------

/// Simplified geometry of a static.
#[derive(Debug)]
pub struct LodEntry {
    pub static_key: String,
    pub bucket: i32,
    pub subsets: Vec<Subset>,
}

/// First position from `at` on of the entry that answers a request; the length where none does.
pub open spec fn lod_position(entries: Seq<LodEntry>, request: LodRequest, at: int) -> int
    decreases entries.len() - at,
{
    if at >= entries.len() {
        entries.len() as int
    } else if (entries[at].static_key@, entries[at].bucket) == request {
        at
    } else {
        lod_position(entries, request, at + 1)
    }
}

/// The subsets that a member is built from: simplified ones where they were made, else its own.
pub open spec fn selected_subsets(
    member: MemberReading,
    statics: Map<Seq<char>, DistantStatic>,
    entries: Seq<LodEntry>,
) -> Seq<Subset> {
    let at = lod_position(entries, (member.static_key@, member.bucket), 0);
    if at < entries.len() {
        entries[at].subsets@
    } else {
        statics[member.static_key@].subsets@
    }
}

/// The index holds the first position of every request that is answered from `at` on.
pub open spec fn indexes_from(
    index: Map<LodRequest, usize>,
    entries: Seq<LodEntry>,
    at: int,
) -> bool {
    forall|request: LodRequest|
        #![trigger index.dom().contains(request)]
        #![trigger lod_position(entries, request, at)]
        {
            &&& index.dom().contains(request) <==> lod_position(entries, request, at)
                < entries.len()
            &&& index.dom().contains(request) ==> index[request] == lod_position(
                entries,
                request,
                at,
            )
        }
}

/// Indexes simplified geometry by its static and error level.
pub fn index_entries(entries: &[LodEntry]) -> (r: LodIndex)
    ensures
        r.wf(),
        indexes_from(r@, entries@, 0),
{
    let mut index = LodIndex::new();
    let mut at: usize = entries.len();
    while at > 0
        invariant
            at <= entries@.len(),
            index.wf(),
            indexes_from(index@, entries@, at as int),
        decreases at,
    {
        let ghost before = index@;
        at = at - 1;
        index.insert(&entries[at].static_key, entries[at].bucket, at);
        proof {
            let own = (entries@[at as int].static_key@, entries@[at as int].bucket);
            assert forall|request: LodRequest|
                #![trigger index@.dom().contains(request)]
                #![trigger lod_position(entries@, request, at as int)]
                {
                    &&& index@.dom().contains(request) <==> lod_position(
                        entries@,
                        request,
                        at as int,
                    ) < entries@.len()
                    &&& index@.dom().contains(request) ==> index@[request] == lod_position(
                        entries@,
                        request,
                        at as int,
                    )
                } by {
                assert(before.dom().contains(request) <==> lod_position(entries@, request, at + 1)
                    < entries@.len());
                if request != own {
                    assert(lod_position(entries@, request, at as int) == lod_position(
                        entries@,
                        request,
                        at + 1,
                    ));
                }
            }
        }
    }
    index
}

/// The subsets that a member is built from.
pub fn select_subsets<'a>(
    member: &MemberReading,
    statics: &'a TextMap<DistantStatic>,
    entries: &'a [LodEntry],
    index: &LodIndex,
) -> (r: &'a Vec<Subset>)
    requires
        statics.wf(),
        statics@.dom().contains(member.static_key@),
        index.wf(),
        indexes_from(index@, entries@, 0),
    ensures
        r@ == selected_subsets(*member, statics@, entries@),
{
    match index.get(member.static_key.as_str(), member.bucket) {
        Some(at) => &entries[at].subsets,
        None => &statics.get(member.static_key.as_str()).unwrap().subsets,
    }
}

/// Triangles of the first `end` subsets.
pub open spec fn subset_triangles(subsets: Seq<Subset>, end: int) -> nat
    decreases end,
{
    if end <= 0 {
        0
    } else {
        subset_triangles(subsets, end - 1) + subsets[end - 1].triangles@.len()
    }
}

/// Triangles that the first `end` members are built from.
pub open spec fn triangles_after(
    members: Seq<MemberReading>,
    statics: Map<Seq<char>, DistantStatic>,
    entries: Seq<LodEntry>,
    end: int,
) -> nat
    decreases end,
{
    if end <= 0 {
        0
    } else {
        let subsets = selected_subsets(members[end - 1], statics, entries);
        triangles_after(members, statics, entries, end - 1) + subset_triangles(
            subsets,
            subsets.len() as int,
        )
    }
}

/// Counts the triangles of a list of subsets.
pub fn count_triangles(subsets: &Vec<Subset>) -> (r: usize)
    requires
        subset_triangles(subsets@, subsets@.len() as int) <= usize::MAX,
    ensures
        r == subset_triangles(subsets@, subsets@.len() as int),
{
    let mut total: usize = 0;
    let mut s: usize = 0;
    while s < subsets.len()
        invariant
            s <= subsets@.len(),
            total == subset_triangles(subsets@, s as int),
            subset_triangles(subsets@, subsets@.len() as int) <= usize::MAX,
        decreases subsets@.len() - s,
    {
        proof {
            lemma_triangles_grow(subsets@, s + 1, subsets@.len() as int);
        }
        total = total + subsets[s].triangles.len();
        s = s + 1;
    }
    total
}

proof fn lemma_triangles_grow(subsets: Seq<Subset>, i: int, j: int)
    requires
        0 <= i <= j,
    ensures
        subset_triangles(subsets, i) <= subset_triangles(subsets, j),
    decreases j,
{
    if i < j {
        lemma_triangles_grow(subsets, i, j - 1);
    }
}

proof fn lemma_after_grows(
    members: Seq<MemberReading>,
    statics: Map<Seq<char>, DistantStatic>,
    entries: Seq<LodEntry>,
    i: int,
    j: int,
)
    requires
        0 <= i <= j,
    ensures
        triangles_after(members, statics, entries, i) <= triangles_after(
            members,
            statics,
            entries,
            j,
        ),
    decreases j,
{
    if i < j {
        lemma_after_grows(members, statics, entries, i, j - 1);
    }
}

/// Counts the triangles that the members are built from.
pub fn count_after_second_pass(
    members: &[MemberReading],
    statics: &TextMap<DistantStatic>,
    entries: &[LodEntry],
    index: &LodIndex,
) -> (r: usize)
    requires
        statics.wf(),
        index.wf(),
        indexes_from(index@, entries@, 0),
        readings_ready(members@, statics@),
        triangles_after(members@, statics@, entries@, members@.len() as int) <= usize::MAX,
    ensures
        r == triangles_after(members@, statics@, entries@, members@.len() as int),
{
    let mut total: usize = 0;
    let mut m: usize = 0;
    while m < members.len()
        invariant
            m <= members@.len(),
            statics.wf(),
            index.wf(),
            indexes_from(index@, entries@, 0),
            readings_ready(members@, statics@),
            triangles_after(members@, statics@, entries@, members@.len() as int) <= usize::MAX,
            total == triangles_after(members@, statics@, entries@, m as int),
        decreases members@.len() - m,
    {
        proof {
            assert(statics@.dom().contains(members@[m as int].static_key@));
            lemma_after_grows(members@, statics@, entries@, m + 1, members@.len() as int);
        }
        total = total + count_triangles(select_subsets(&members[m], statics, entries, index));
        m = m + 1;
    }
    total
}

// ---------------------------------------------------------------------------------------------
// Results
// ---------------------------------------------------------------------------------------------

/// The metrics with the outcome of one group.
pub open spec fn with_result(
    metrics: MergeSimplificationMetrics,
    subsets: Seq<Subset>,
    culled: SubterrainCullTally,
) -> MergeSimplificationMetrics {
    MergeSimplificationMetrics {
        subterrain_culled_triangle_count: (metrics.subterrain_culled_triangle_count
            + culled.triangles) as usize,
        subterrain_culled_vertex_count: (metrics.subterrain_culled_vertex_count
            + culled.vertices) as usize,
        merged_triangle_count: (metrics.merged_triangle_count + subset_triangles(
            subsets,
            subsets.len() as int,
        )) as usize,
        emitted_merged_subset_count: (metrics.emitted_merged_subset_count
            + subsets.len()) as usize,
        emitted_merged_static_count: (metrics.emitted_merged_static_count + unit(
            subsets.len() > 0,
        )) as usize,
        ..metrics
    }
}

/// Counts the outcome of one group. Returns whether the merged static is emitted: groups whose
/// geometry came out empty are dropped.
pub fn tally_result(
    metrics: &mut MergeSimplificationMetrics,
    merged: &DistantStatic,
    culled: &SubterrainCullTally,
) -> (r: bool)
    requires
        old(metrics).subterrain_culled_triangle_count + culled.triangles <= usize::MAX,
        old(metrics).subterrain_culled_vertex_count + culled.vertices <= usize::MAX,
        old(metrics).merged_triangle_count + subset_triangles(
            merged.subsets@,
            merged.subsets@.len() as int,
        ) <= usize::MAX,
        old(metrics).emitted_merged_subset_count + merged.subsets@.len() <= usize::MAX,
        old(metrics).emitted_merged_static_count + unit(merged.subsets@.len() > 0) <= usize::MAX,
    ensures
        *final(metrics) == with_result(*old(metrics), merged.subsets@, *culled),
        r == (merged.subsets@.len() > 0),
{
    metrics.subterrain_culled_triangle_count = metrics.subterrain_culled_triangle_count
        + culled.triangles;
    metrics.subterrain_culled_vertex_count = metrics.subterrain_culled_vertex_count
        + culled.vertices;
    metrics.merged_triangle_count = metrics.merged_triangle_count + count_triangles(
        &merged.subsets,
    );
    metrics.emitted_merged_subset_count = metrics.emitted_merged_subset_count
        + merged.subsets.len();
    if merged.subsets.len() == 0 {
        return false;
    }
    metrics.emitted_merged_static_count = metrics.emitted_merged_static_count + 1;
    true
}

} // verus!
