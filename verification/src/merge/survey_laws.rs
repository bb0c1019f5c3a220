//! Laws of the survey: which subsets are counted for what, and which geometry is asked for.

use crate::float_bits::{is_number, line_position, INFINITE_MAGNITUDE};
use crate::merge::batches::{emitted, GroupWork};
use crate::merge::lod_index::LodRequest;
use crate::merge::survey::{
    asks_lod, counts, distinct_requests, finite_values, lod_position, no_survey, reads_sorted,
    requests, selected_subsets, subset_triangles, summarizes, surveyed, total_position,
    with_reading, with_readings, with_result, LodEntry, MemberReading, MergeSimplificationMetrics,
    MergeValueDistribution, OrderedBits, Survey,
};
use crate::model::append::SubterrainCullTally;
use crate::model::{DistantStatic, Subset};
use crate::picks::{lemma_list_next_row, lemma_list_step, lists};
use crate::sort::Ranked;
use vstd::prelude::*;

verus! {

/// Subset `s` of member `m`.
pub open spec fn subset_at(
    members: Seq<MemberReading>,
    statics: Map<Seq<char>, DistantStatic>,
    m: int,
    s: int,
) -> Subset {
    statics[members[m].static_key@].subsets@[s]
}

/// How many subsets each member has.
pub open spec fn subset_counts(
    members: Seq<MemberReading>,
    statics: Map<Seq<char>, DistantStatic>,
) -> Seq<nat> {
    Seq::new(members.len(), |m: int| statics[members[m].static_key@].subsets@.len())
}

/// The subset does not blend and has a positive, finite extent.
pub open spec fn has_reading(
    members: Seq<MemberReading>,
    statics: Map<Seq<char>, DistantStatic>,
    m: int,
    s: int,
) -> bool {
    let extent = members[m].subsets@[s].extent;
    &&& !subset_at(members, statics, m, s).has_alpha
    &&& 0 < extent < INFINITE_MAGNITUDE
}

/// Which subsets are read.
pub open spec fn read_ones(
    members: Seq<MemberReading>,
    statics: Map<Seq<char>, DistantStatic>,
) -> spec_fn(int, int) -> bool {
    |m: int, s: int| has_reading(members, statics, m, s)
}

/// Which subsets are read and ask for more than all of their extent.
pub open spec fn over_ones(
    members: Seq<MemberReading>,
    statics: Map<Seq<char>, DistantStatic>,
) -> spec_fn(int, int) -> bool {
    |m: int, s: int|
        has_reading(members, statics, m, s) && is_number(members[m].subsets@[s].target.requested)
            && line_position(members[m].subsets@[s].target.requested) > 0x3f80_0000
}

/// Which subsets are read and had their target capped.
pub open spec fn capped_ones(
    members: Seq<MemberReading>,
    statics: Map<Seq<char>, DistantStatic>,
) -> spec_fn(int, int) -> bool {
    |m: int, s: int|
        has_reading(members, statics, m, s) && members[m].subsets@[s].target.capped
}

/// Which subsets are read and are simplified again.
pub open spec fn again_ones(
    members: Seq<MemberReading>,
    statics: Map<Seq<char>, DistantStatic>,
) -> spec_fn(int, int) -> bool {
    |m: int, s: int|
        has_reading(members, statics, m, s) && members[m].subsets@[s].target.should_simplify
}

/// Which subsets there are.
pub open spec fn all_ones() -> spec_fn(int, int) -> bool {
    |m: int, s: int| true
}

/// Triangles of the listed subsets.
pub open spec fn triangles_listed(
    members: Seq<MemberReading>,
    statics: Map<Seq<char>, DistantStatic>,
    list: Seq<(int, int)>,
) -> nat
    decreases list.len(),
{
    if list.len() == 0 {
        0
    } else {
        triangles_listed(members, statics, list.drop_last()) + subset_at(
            members,
            statics,
            list.last().0,
            list.last().1,
        ).triangles@.len()
    }
}

/// The subsets of members by what they are counted for.
pub struct Counted {
    pub all: Seq<(int, int)>,
    pub read: Seq<(int, int)>,
    pub over: Seq<(int, int)>,
    pub capped: Seq<(int, int)>,
    pub again: Seq<(int, int)>,
}

/// The survey counts exactly the subsets before an end, each for what it is.
pub open spec fn counts_all(
    members: Seq<MemberReading>,
    statics: Map<Seq<char>, DistantStatic>,
    m: int,
    s: int,
    counted: Counted,
    survey: Survey,
) -> bool {
    let sizes = subset_counts(members, statics);
    &&& lists(all_ones(), sizes, m, s, counted.all)
    &&& lists(read_ones(members, statics), sizes, m, s, counted.read)
    &&& lists(over_ones(members, statics), sizes, m, s, counted.over)
    &&& lists(capped_ones(members, statics), sizes, m, s, counted.capped)
    &&& lists(again_ones(members, statics), sizes, m, s, counted.again)
    &&& survey.subsets == counted.all.len()
    &&& survey.triangles == triangles_listed(members, statics, counted.all)
    &&& survey.over_one == counted.over.len()
    &&& survey.over_one_triangles == triangles_listed(members, statics, counted.over)
    &&& survey.capped == counted.capped.len()
    &&& survey.second_pass == counted.again.len()
    &&& survey.ratios == counted.read.map_values(
        |at: (int, int)| members[at.0].subsets@[at.1].ratio,
    )
    &&& survey.requested == counted.read.map_values(
        |at: (int, int)| members[at.0].subsets@[at.1].target.requested,
    )
    &&& survey.effective == counted.read.map_values(
        |at: (int, int)| members[at.0].subsets@[at.1].target.effective,
    )
}

proof fn lemma_triangles_push(
    members: Seq<MemberReading>,
    statics: Map<Seq<char>, DistantStatic>,
    list: Seq<(int, int)>,
    at: (int, int),
)
    ensures
        triangles_listed(members, statics, list.push(at)) == triangles_listed(
            members,
            statics,
            list,
        ) + subset_at(members, statics, at.0, at.1).triangles@.len(),
{
    assert(list.push(at).drop_last() =~= list);
}

proof fn lemma_reading_counted(
    members: Seq<MemberReading>,
    statics: Map<Seq<char>, DistantStatic>,
    m: int,
    s: int,
    counted: Counted,
    survey: Survey,
) -> (next: Counted)
    requires
        0 <= m < members.len(),
        0 <= s < subset_counts(members, statics)[m],
        counts_all(members, statics, m, s, counted, survey),
    ensures
        counts_all(
            members,
            statics,
            m,
            s + 1,
            next,
            with_reading(survey, subset_at(members, statics, m, s), members[m].subsets@[s]),
        ),
{
    let sizes = subset_counts(members, statics);
    let at = (m, s);
    let subset = subset_at(members, statics, m, s);
    let reading = members[m].subsets@[s];
    lemma_list_step(all_ones(), sizes, m, s, counted.all);
    lemma_list_step(read_ones(members, statics), sizes, m, s, counted.read);
    lemma_list_step(over_ones(members, statics), sizes, m, s, counted.over);
    lemma_list_step(capped_ones(members, statics), sizes, m, s, counted.capped);
    lemma_list_step(again_ones(members, statics), sizes, m, s, counted.again);
    lemma_triangles_push(members, statics, counted.all, at);
    lemma_triangles_push(members, statics, counted.over, at);
    assert(has_reading(members, statics, m, s) <==> counts(subset, reading));
    let is_read = has_reading(members, statics, m, s);
    let over = over_ones(members, statics)(m, s);
    let next = Counted {
        all: counted.all.push(at),
        read: if is_read {
            counted.read.push(at)
        } else {
            counted.read
        },
        over: if over {
            counted.over.push(at)
        } else {
            counted.over
        },
        capped: if capped_ones(members, statics)(m, s) {
            counted.capped.push(at)
        } else {
            counted.capped
        },
        again: if again_ones(members, statics)(m, s) {
            counted.again.push(at)
        } else {
            counted.again
        },
    };
    let after = with_reading(survey, subset, reading);
    assert(all_ones()(m, s));
    assert(read_ones(members, statics)(m, s) == is_read);
    assert(after.ratios =~= next.read.map_values(
        |at: (int, int)| members[at.0].subsets@[at.1].ratio,
    ));
    assert(after.requested =~= next.read.map_values(
        |at: (int, int)| members[at.0].subsets@[at.1].target.requested,
    ));
    assert(after.effective =~= next.read.map_values(
        |at: (int, int)| members[at.0].subsets@[at.1].target.effective,
    ));
    next
}

proof fn lemma_readings_counted(
    members: Seq<MemberReading>,
    statics: Map<Seq<char>, DistantStatic>,
    m: int,
    end: int,
    counted: Counted,
    survey: Survey,
) -> (next: Counted)
    requires
        0 <= m < members.len(),
        0 <= end <= subset_counts(members, statics)[m],
        counts_all(members, statics, m, 0, counted, survey),
    ensures
        counts_all(
            members,
            statics,
            m,
            end,
            next,
            with_readings(
                survey,
                statics[members[m].static_key@].subsets@,
                members[m].subsets@,
                end,
            ),
        ),
    decreases end,
{
    if end <= 0 {
        counted
    } else {
        let before = lemma_readings_counted(members, statics, m, end - 1, counted, survey);
        lemma_reading_counted(
            members,
            statics,
            m,
            end - 1,
            before,
            with_readings(
                survey,
                statics[members[m].static_key@].subsets@,
                members[m].subsets@,
                end - 1,
            ),
        )
    }
}

/// The survey of members counts every subset of every member once: its triangles, and, where it may
/// be simplified and has an extent, what its target asks for and whether it was capped or is
/// simplified again.
pub proof fn lemma_survey_counts_all(
    members: Seq<MemberReading>,
    statics: Map<Seq<char>, DistantStatic>,
    end: int,
) -> (counted: Counted)
    requires
        0 <= end <= members.len(),
    ensures
        counts_all(members, statics, end, 0, counted, surveyed(members, statics, end)),
    decreases end,
{
    if end <= 0 {
        let none = Counted {
            all: Seq::empty(),
            read: Seq::empty(),
            over: Seq::empty(),
            capped: Seq::empty(),
            again: Seq::empty(),
        };
        let survey = no_survey();
        assert(survey.ratios =~= none.read.map_values(
            |at: (int, int)| members[at.0].subsets@[at.1].ratio,
        ));
        assert(survey.requested =~= none.read.map_values(
            |at: (int, int)| members[at.0].subsets@[at.1].target.requested,
        ));
        assert(survey.effective =~= none.read.map_values(
            |at: (int, int)| members[at.0].subsets@[at.1].target.effective,
        ));
        none
    } else {
        let before = lemma_survey_counts_all(members, statics, end - 1);
        let sizes = subset_counts(members, statics);
        let m = end - 1;
        let n = sizes[m] as int;
        let all = lemma_readings_counted(
            members,
            statics,
            m,
            n,
            before,
            surveyed(members, statics, m),
        );
        lemma_list_next_row(all_ones(), sizes, m, n, all.all);
        lemma_list_next_row(read_ones(members, statics), sizes, m, n, all.read);
        lemma_list_next_row(over_ones(members, statics), sizes, m, n, all.over);
        lemma_list_next_row(capped_ones(members, statics), sizes, m, n, all.capped);
        lemma_list_next_row(again_ones(members, statics), sizes, m, n, all.again);
        all
    }
}

// ---------------------------------------------------------------------------------------------
// Requests
// ---------------------------------------------------------------------------------------------

/// Some subset of the member is simplified again.
pub open spec fn wants_again(
    members: Seq<MemberReading>,
    statics: Map<Seq<char>, DistantStatic>,
    m: int,
) -> bool {
    exists|s: int|
        0 <= s < statics[members[m].static_key@].subsets@.len() && #[trigger] has_reading(
            members,
            statics,
            m,
            s,
        ) && members[m].subsets@[s].target.should_simplify
}

proof fn lemma_asks(
    members: Seq<MemberReading>,
    statics: Map<Seq<char>, DistantStatic>,
    m: int,
)
    ensures
        asks_lod(
            statics[members[m].static_key@].subsets@,
            members[m].subsets@,
            statics[members[m].static_key@].subsets@.len() as int,
        ) <==> wants_again(members, statics, m),
{
    let subsets = statics[members[m].static_key@].subsets@;
    let readings = members[m].subsets@;
    if wants_again(members, statics, m) {
        let s = choose|s: int|
            0 <= s < subsets.len() && #[trigger] has_reading(members, statics, m, s)
                && members[m].subsets@[s].target.should_simplify;
        assert(counts(subsets[s], readings[s]));
    }
    if asks_lod(subsets, readings, subsets.len() as int) {
        let s = choose|s: int|
            0 <= s < subsets.len() && #[trigger] counts(subsets[s], readings[s])
                && readings[s].target.should_simplify;
        assert(has_reading(members, statics, m, s));
    }
}

/// Geometry is asked for exactly by the members of which a subset is simplified again.
pub proof fn lemma_requests_made(
    members: Seq<MemberReading>,
    statics: Map<Seq<char>, DistantStatic>,
    end: int,
    request: LodRequest,
)
    requires
        0 <= end <= members.len(),
    ensures
        requests(members, statics, end).contains(request) <==> exists|m: int|
            0 <= m < end && #[trigger] wants_again(members, statics, m) && request == (
                members[m].static_key@,
                members[m].bucket,
            ),
    decreases end,
{
    if end > 0 {
        lemma_requests_made(members, statics, end - 1, request);
        lemma_asks(members, statics, end - 1);
        let before = requests(members, statics, end - 1);
        let all = requests(members, statics, end);
        if before.contains(request) {
            let k = choose|k: int| 0 <= k < before.len() && before[k] == request;
            assert(all[k] == request);
        }
        if wants_again(members, statics, end - 1) {
            assert(all[before.len() as int] == (
                members[end - 1].static_key@,
                members[end - 1].bucket,
            ));
            if all.contains(request) && !before.contains(request) {
                let k = choose|k: int| 0 <= k < all.len() && all[k] == request;
                if k < before.len() {
                    assert(before[k] == request);
                }
            }
        }
    }
}

/// Each request is made once, and none is forgotten.
pub proof fn lemma_requests_distinct(list: Seq<LodRequest>, end: int)
    requires
        0 <= end <= list.len(),
    ensures
        distinct_requests(list, end).no_duplicates(),
        forall|request: LodRequest| #[trigger]
            distinct_requests(list, end).contains(request) <==> list.take(end).contains(request),
    decreases end,
{
    if end > 0 {
        lemma_requests_distinct(list, end - 1);
        let before = distinct_requests(list, end - 1);
        let all = distinct_requests(list, end);
        let last = list[end - 1];
        let front = list.take(end - 1);
        let some = list.take(end);
        assert(some =~= front.push(last));
        assert forall|request: LodRequest| #[trigger] all.contains(request) <==> some.contains(
            request,
        ) by {
            assert(before.contains(request) <==> front.contains(request));
            if before.contains(request) {
                let k = choose|k: int| 0 <= k < before.len() && before[k] == request;
                assert(all[k] == request);
            }
            if front.contains(request) {
                let k = choose|k: int| 0 <= k < front.len() && front[k] == request;
                assert(some[k] == request);
            }
            assert(some[end - 1] == last);
            if !before.contains(last) {
                assert(all[before.len() as int] == last);
            }
            if all.contains(request) && !before.contains(request) {
                let k = choose|k: int| 0 <= k < all.len() && all[k] == request;
                if k < before.len() {
                    assert(before[k] == request);
                }
            }
            if some.contains(request) && !front.contains(request) {
                let k = choose|k: int| 0 <= k < some.len() && some[k] == request;
                if k < front.len() {
                    assert(front[k] == request);
                }
            }
        }
    } else {
        assert(list.take(end) =~= Seq::empty());
    }
}

/// A member is built from the first geometry that was made for its static and bucket, and from its
/// static where none was.
pub proof fn lemma_member_built_from(
    member: MemberReading,
    statics: Map<Seq<char>, DistantStatic>,
    entries: Seq<LodEntry>,
)
    ensures
        forall|k: int|
            0 <= k < entries.len() && (#[trigger] entries[k]).static_key@ == member.static_key@
                && entries[k].bucket == member.bucket && (forall|j: int|
                0 <= j < k ==> (#[trigger] entries[j]).static_key@ != member.static_key@
                    || entries[j].bucket != member.bucket) ==> selected_subsets(
                member,
                statics,
                entries,
            ) == entries[k].subsets@,
        (forall|k: int|
            0 <= k < entries.len() ==> (#[trigger] entries[k]).static_key@ != member.static_key@
                || entries[k].bucket != member.bucket) ==> selected_subsets(
            member,
            statics,
            entries,
        ) == statics[member.static_key@].subsets@,
{
    let request = (member.static_key@, member.bucket);
    lemma_first_position(entries, request, 0);
    let at = lod_position(entries, request, 0);
    assert forall|k: int|
        0 <= k < entries.len() && (#[trigger] entries[k]).static_key@ == member.static_key@
            && entries[k].bucket == member.bucket && (forall|j: int|
            0 <= j < k ==> (#[trigger] entries[j]).static_key@ != member.static_key@
                || entries[j].bucket != member.bucket) implies selected_subsets(
        member,
        statics,
        entries,
    ) == entries[k].subsets@ by {
        if at < k {
            assert(entries[at].static_key@ == member.static_key@);
        }
    }
    if at < entries.len() {
        assert(entries[at].static_key@ == member.static_key@);
    }
}

proof fn lemma_first_position(entries: Seq<LodEntry>, request: LodRequest, at: int)
    requires
        0 <= at <= entries.len(),
    ensures
        at <= lod_position(entries, request, at) <= entries.len(),
        lod_position(entries, request, at) < entries.len() ==> (
            entries[lod_position(entries, request, at)].static_key@,
            entries[lod_position(entries, request, at)].bucket,
        ) == request,
        forall|k: int|
            at <= k < lod_position(entries, request, at) ==> ((#[trigger] entries[k]).static_key@,
                entries[k].bucket) != request,
    decreases entries.len() - at,
{
    if at < entries.len() && (entries[at].static_key@, entries[at].bucket) != request {
        lemma_first_position(entries, request, at + 1);
    }
}

// ---------------------------------------------------------------------------------------------
// Distributions
// ---------------------------------------------------------------------------------------------

/// The value is a finite one of the list.
pub open spec fn is_finite_value(values: Seq<u32>, value: u32) -> bool {
    exists|i: int|
        0 <= i < values.len() && #[trigger] values[i] == value && value % 0x8000_0000
            < INFINITE_MAGNITUDE
}

proof fn lemma_finite_values(values: Seq<u32>, end: int, value: u32)
    requires
        0 <= end <= values.len(),
    ensures
        finite_values(values, end).contains(OrderedBits { bits: value })
            <==> is_finite_value(values.take(end), value),
    decreases end,
{
    let list = finite_values(values, end);
    if end > 0 {
        lemma_finite_values(values, end - 1, value);
        let before = finite_values(values, end - 1);
        let wanted = OrderedBits { bits: value };
        let front = values.take(end - 1);
        let some = values.take(end);
        let last = values[end - 1];
        if before.contains(wanted) {
            let k = choose|k: int| 0 <= k < before.len() && before[k] == wanted;
            assert(list[k] == wanted);
        }
        if is_finite_value(front, value) {
            let i = choose|i: int| 0 <= i < front.len() && #[trigger] front[i] == value;
            assert(some[i] == value);
        }
        if last == value && value % 0x8000_0000 < INFINITE_MAGNITUDE {
            assert(some[end - 1] == value);
            assert(list[before.len() as int] == wanted);
        }
        if list.contains(wanted) && !before.contains(wanted) {
            let k = choose|k: int| 0 <= k < list.len() && list[k] == wanted;
            if k < before.len() {
                assert(before[k] == wanted);
            }
        }
        if is_finite_value(some, value) && !is_finite_value(front, value) {
            let i = choose|i: int| 0 <= i < some.len() && #[trigger] some[i] == value;
            if i < front.len() {
                assert(front[i] == value);
            }
        }
    }
}

/// A summary of values names finite ones of them: no finite value lies below the least or above the
/// greatest, and the others lie between them in order.
pub proof fn lemma_summary_spans(summary: MergeValueDistribution, values: Seq<u32>, value: u32)
    requires
        summarizes(summary, values),
        is_finite_value(values, value),
    ensures
        is_finite_value(values, summary.min),
        is_finite_value(values, summary.p50),
        is_finite_value(values, summary.p95),
        is_finite_value(values, summary.max),
        total_position(summary.min) <= total_position(value) <= total_position(summary.max),
        total_position(summary.min) <= total_position(summary.p50) <= total_position(summary.p95)
            <= total_position(summary.max),
{
    let n = values.len() as int;
    assert(values.take(n) =~= values);
    lemma_finite_values(values, n, value);
    let kept = finite_values(values, n);
    assert(kept.len() > 0);
    let sorted = choose|sorted: Seq<OrderedBits>| #[trigger]
        reads_sorted(summary, values, sorted);
    broadcast use vstd::seq_lib::group_to_multiset_ensures;

    assert forall|item: OrderedBits| #[trigger] sorted.contains(item) <==> kept.contains(item) by {
        assert(sorted.to_multiset().count(item) > 0 <==> sorted.contains(item));
        assert(kept.to_multiset().count(item) > 0 <==> kept.contains(item));
    }
    let count = sorted.len() as int;
    let mid = (count - 1) * 50 / 100;
    let high = (count - 1) * 95 / 100;
    assert(0 <= mid <= high < count);
    lemma_finite_values(values, n, summary.min);
    lemma_finite_values(values, n, summary.p50);
    lemma_finite_values(values, n, summary.p95);
    lemma_finite_values(values, n, summary.max);
    assert(sorted.contains(sorted[0]) && sorted.contains(sorted[mid]) && sorted.contains(
        sorted[high],
    ) && sorted.contains(sorted[count - 1]));
    assert(sorted[0] == (OrderedBits { bits: summary.min }));
    assert(sorted[mid] == (OrderedBits { bits: summary.p50 }));
    assert(sorted[high] == (OrderedBits { bits: summary.p95 }));
    assert(sorted[count - 1] == (OrderedBits { bits: summary.max }));
    assert(kept.contains(OrderedBits { bits: value }));
    assert(sorted.contains(OrderedBits { bits: value }));
    let k = choose|k: int| 0 <= k < sorted.len() && sorted[k] == (OrderedBits { bits: value });
    assert(sorted[0].ranks_le(sorted[k]));
    assert(sorted[k].ranks_le(sorted[count - 1]));
    assert(sorted[0].ranks_le(sorted[mid]));
    assert(sorted[mid].ranks_le(sorted[high]));
    assert(sorted[high].ranks_le(sorted[count - 1]));
}

// ---------------------------------------------------------------------------------------------
// Batches
// ---------------------------------------------------------------------------------------------

/// Batches hand on exactly the groups that have geometry, each with its own static, and one batch
/// after the other hands on what one would.
pub proof fn lemma_groups_handed_on(
    groups: Seq<GroupWork>,
    built: Seq<DistantStatic>,
    start: int,
    middle: int,
    end: int,
    record: (Seq<char>, DistantStatic),
)
    requires
        0 <= start <= middle <= end <= groups.len(),
        built.len() == groups.len(),
    ensures
        emitted(groups, built, start, end) == emitted(groups, built, start, middle) + emitted(
            groups,
            built,
            middle,
            end,
        ),
        emitted(groups, built, start, end).contains(record) <==> exists|g: int|
            start <= g < end && (#[trigger] groups[g]).id@ == record.0 && built[g] == record.1
                && built[g].subsets@.len() > 0,
    decreases end,
{
    let all = emitted(groups, built, start, end);
    if end <= start {
        assert(all =~= emitted(groups, built, start, middle) + emitted(groups, built, middle, end));
    } else {
        let last = end - 1;
        let before = emitted(groups, built, start, last);
        if middle < end {
            lemma_groups_handed_on(groups, built, start, middle, last, record);
        } else {
            lemma_groups_handed_on(groups, built, start, last, last, record);
        }
        assert(all =~= emitted(groups, built, start, middle) + emitted(groups, built, middle, end));
        if before.contains(record) {
            let k = choose|k: int| 0 <= k < before.len() && before[k] == record;
            assert(all[k] == record);
        }
        if built[last].subsets@.len() > 0 {
            assert(all[before.len() as int] == (groups[last].id@, built[last]));
        }
        if all.contains(record) && !before.contains(record) {
            let k = choose|k: int| 0 <= k < all.len() && all[k] == record;
            if k < before.len() {
                assert(before[k] == record);
            }
            assert(groups[last].id@ == record.0);
        }
    }
}

/// The outcome of a group adds its subsets, their triangles and what was culled, and one static where
/// it has any subset; it changes nothing else.
pub proof fn lemma_outcome_counted(
    metrics: MergeSimplificationMetrics,
    subsets: Seq<Subset>,
    subset: Subset,
    culled: SubterrainCullTally,
)
    requires
        metrics.subterrain_culled_triangle_count + culled.triangles <= usize::MAX,
        metrics.subterrain_culled_vertex_count + culled.vertices <= usize::MAX,
        metrics.merged_triangle_count + subset_triangles(
            subsets.push(subset),
            subsets.len() as int + 1,
        ) <= usize::MAX,
        metrics.emitted_merged_subset_count + subsets.len() + 1 <= usize::MAX,
        metrics.emitted_merged_static_count < usize::MAX,
    ensures
        ({
            let none = with_result(metrics, Seq::empty(), culled);
            let some = with_result(metrics, subsets, culled);
            let more = with_result(metrics, subsets.push(subset), culled);
            &&& none.subterrain_culled_triangle_count - metrics.subterrain_culled_triangle_count
                == culled.triangles
            &&& none.subterrain_culled_vertex_count - metrics.subterrain_culled_vertex_count
                == culled.vertices
            &&& none.merged_triangle_count == metrics.merged_triangle_count
            &&& none.emitted_merged_subset_count == metrics.emitted_merged_subset_count
            &&& none.emitted_merged_static_count == metrics.emitted_merged_static_count
            &&& more.subterrain_culled_triangle_count == none.subterrain_culled_triangle_count
            &&& more.subterrain_culled_vertex_count == none.subterrain_culled_vertex_count
            &&& more.emitted_merged_subset_count - some.emitted_merged_subset_count == 1
            &&& more.merged_triangle_count - some.merged_triangle_count == subset.triangles@.len()
            &&& more.emitted_merged_static_count - metrics.emitted_merged_static_count == 1
            &&& more.group_count == metrics.group_count
            &&& more.member_count == metrics.member_count
        }),
{
    lemma_triangles_prefix(subsets, subset, subsets.len() as int);
}

proof fn lemma_triangles_prefix(subsets: Seq<Subset>, subset: Subset, end: int)
    requires
        0 <= end <= subsets.len(),
    ensures
        subset_triangles(subsets.push(subset), end) == subset_triangles(subsets, end),
    decreases end,
{
    if end > 0 {
        lemma_triangles_prefix(subsets, subset, end - 1);
    }
}

} // verus!
