//! Building the geometry of the selected merge groups.

use crate::merge::absorb::triangles_before;
use crate::merge::geometry::{
    all_triangles, all_vertices, group_subsets, lemma_group_triangles, member_ready,
    member_triangles, members_culled, merge_group, MemberGeometry,
};
use crate::merge::lod_index::LodIndex;
use crate::merge::plan::ONE_BITS;
use crate::merge::survey::{
    count_after_second_pass, index_entries, indexes_from, lod_position, readings_ready,
    selected_subsets, subset_triangles, tally_result, triangles_after, unit, with_result,
    LodEntry, MemberReading, MergeSimplificationMetrics,
};
use crate::model::{Bound, DistantStatic, StaticType, Subset, Vertex};
use crate::model::bounds::{all_bounds_updated, bounded_by_subsets, bounds_updated, joins};
use crate::model::merge::{
    corners, lemma_geometry_total, merged_subsets, triangle_total, views, with_geometry,
    SubsetView,
};
use crate::text_map::TextMap;
use vstd::prelude::*;

verus! {

/// A group to build: its record key, and how many of the members are its own.
#[derive(Debug)]
pub struct GroupWork {
    pub id: String,
    pub members: usize,
}

/// Members of the first `g` groups; also the first member of group `g`.
pub open spec fn group_start(groups: Seq<GroupWork>, g: int) -> int
    decreases g,
{
    if g <= 0 {
        0
    } else {
        group_start(groups, g - 1) + groups[g - 1].members
    }
}

/// Where the simplified geometry of a member stands, if it was made.
pub open spec fn lod_at(member: MemberReading, entries: Seq<LodEntry>) -> Option<usize> {
    let at = lod_position(entries, (member.static_key@, member.bucket), 0);
    if at < entries.len() {
        Some(at as usize)
    } else {
        None
    }
}

/// `place` answers every question, each with one answer.
pub open spec fn places<P: Fn(usize, Option<usize>) -> MemberGeometry>(place: P) -> bool {
    &&& forall|m: usize, at: Option<usize>| #[trigger] call_requires(place, (m, at))
    &&& forall|m: usize, at: Option<usize>, x: MemberGeometry, y: MemberGeometry| #[trigger]
        call_ensures(place, (m, at), x) && #[trigger] call_ensures(place, (m, at), y) ==> x == y
}

/// The answer of `place`.
pub open spec fn placed<P: Fn(usize, Option<usize>) -> MemberGeometry>(
    place: P,
    m: usize,
    at: Option<usize>,
) -> MemberGeometry {
    choose|x: MemberGeometry| call_ensures(place, (m, at), x)
}

/// The geometry of member `m` at its place.
pub open spec fn geometry_of<P: Fn(usize, Option<usize>) -> MemberGeometry>(
    place: P,
    members: Seq<MemberReading>,
    entries: Seq<LodEntry>,
    m: int,
) -> MemberGeometry {
    placed(place, m as usize, lod_at(members[m], entries))
}

/// The geometry of the members of group `g`.
pub open spec fn group_geometry<P: Fn(usize, Option<usize>) -> MemberGeometry>(
    place: P,
    groups: Seq<GroupWork>,
    members: Seq<MemberReading>,
    entries: Seq<LodEntry>,
    g: int,
) -> Seq<MemberGeometry> {
    Seq::new(
        groups[g].members as nat,
        |i: int| geometry_of(place, members, entries, group_start(groups, g) + i),
    )
}

/// What is left of the merged geometry of some members.
pub open spec fn group_result(members: Seq<MemberGeometry>) -> Seq<SubsetView> {
    let merged = merged_subsets(group_subsets(members));
    with_geometry(merged, merged.len() as int)
}

/// Triangles of the first `end` subsets.
pub open spec fn view_triangles(subsets: Seq<SubsetView>, end: int) -> nat
    decreases end,
{
    if end <= 0 {
        0
    } else {
        view_triangles(subsets, end - 1) + subsets[end - 1].triangles.len()
    }
}

/// Sums over groups.
pub struct GroupSums {
    pub culled_triangles: int,
    pub culled_vertices: int,
    pub triangles: nat,
    pub subsets: nat,
    pub statics: nat,
}

/// The sums with one more group.
pub open spec fn with_group(sums: GroupSums, members: Seq<MemberGeometry>) -> GroupSums {
    let count = members.len() as int;
    let opaque = members_culled(members, true, count);
    let alpha = members_culled(members, false, count);
    let result = group_result(members);
    GroupSums {
        culled_triangles: sums.culled_triangles + opaque.0 + alpha.0,
        culled_vertices: sums.culled_vertices + opaque.1 + alpha.1,
        triangles: sums.triangles + view_triangles(result, result.len() as int),
        subsets: sums.subsets + result.len(),
        statics: sums.statics + unit(result.len() > 0),
    }
}

/// The sums over the first `end` groups.
pub open spec fn group_sums<P: Fn(usize, Option<usize>) -> MemberGeometry>(
    place: P,
    groups: Seq<GroupWork>,
    members: Seq<MemberReading>,
    entries: Seq<LodEntry>,
    end: int,
) -> GroupSums
    decreases end,
{
    if end <= 0 {
        GroupSums { culled_triangles: 0, culled_vertices: 0, triangles: 0, subsets: 0, statics: 0 }
    } else {
        with_group(
            group_sums(place, groups, members, entries, end - 1),
            group_geometry(place, groups, members, entries, end - 1),
        )
    }
}

/// The metrics with the sums over groups.
pub open spec fn with_sums(
    metrics: MergeSimplificationMetrics,
    sums: GroupSums,
) -> MergeSimplificationMetrics {
    MergeSimplificationMetrics {
        subterrain_culled_triangle_count: (metrics.subterrain_culled_triangle_count
            + sums.culled_triangles) as usize,
        subterrain_culled_vertex_count: (metrics.subterrain_culled_vertex_count
            + sums.culled_vertices) as usize,
        merged_triangle_count: (metrics.merged_triangle_count + sums.triangles) as usize,
        emitted_merged_subset_count: (metrics.emitted_merged_subset_count + sums.subsets) as usize,
        emitted_merged_static_count: (metrics.emitted_merged_static_count + sums.statics) as usize,
        ..metrics
    }
}

/// The metrics with the triangles after the second pass.
pub open spec fn with_after(
    metrics: MergeSimplificationMetrics,
    triangles: usize,
) -> MergeSimplificationMetrics {
    MergeSimplificationMetrics { member_triangle_count_after_second_pass: triangles, ..metrics }
}

/// The metrics can hold the sums.
pub open spec fn sums_fit(metrics: MergeSimplificationMetrics, sums: GroupSums) -> bool {
    &&& 0 <= metrics.subterrain_culled_triangle_count + sums.culled_triangles <= usize::MAX
    &&& 0 <= metrics.subterrain_culled_vertex_count + sums.culled_vertices <= usize::MAX
    &&& metrics.merged_triangle_count + sums.triangles <= usize::MAX
    &&& metrics.emitted_merged_subset_count + sums.subsets <= usize::MAX
    &&& metrics.emitted_merged_static_count + sums.statics <= usize::MAX
}

/// The groups can be built: they share out the members, every member's geometry is ready and is
/// that which the member is built from, no group is too large to merge, and counters never
/// overflow.
pub open spec fn groups_ready<P: Fn(usize, Option<usize>) -> MemberGeometry>(
    place: P,
    groups: Seq<GroupWork>,
    members: Seq<MemberReading>,
    statics: Map<Seq<char>, DistantStatic>,
    entries: Seq<LodEntry>,
    metrics: MergeSimplificationMetrics,
) -> bool {
    &&& places(place)
    &&& group_start(groups, groups.len() as int) == members.len()
    &&& forall|m: int|
        #![trigger geometry_of(place, members, entries, m)]
        0 <= m < members.len() ==> member_ready(geometry_of(place, members, entries, m)) && views(
            geometry_of(place, members, entries, m).subsets@,
        ) == views(selected_subsets(members[m], statics, entries))
    &&& forall|g: int|
        #![trigger group_geometry(place, groups, members, entries, g)]
        0 <= g < groups.len() ==> {
            let own = group_geometry(place, groups, members, entries, g);
            &&& all_triangles(own) <= u32::MAX
            &&& all_vertices(own) <= usize::MAX
        }
    &&& forall|g: int|
        0 <= g <= groups.len() ==> sums_fit(
            metrics,
            #[trigger] group_sums(place, groups, members, entries, g),
        )
}

/// The static is the merged geometry of the members, with its bounds computed.
pub open spec fn is_built<J: Fn(Bound, Bound) -> Bound, E: Fn(&Vec<Vertex>) -> Bound>(
    join: J,
    enclose: E,
    members: Seq<MemberGeometry>,
    built: DistantStatic,
) -> bool {
    &&& all_bounds_updated(join, enclose, group_result(members), built.subsets@)
    &&& bounded_by_subsets(join, built)
    &&& built.static_type == StaticType::StaticAuto
    &&& built.max_scale == ONE_BITS
    &&& !built.is_door
    &&& built.horizon_footprint_eligible
}

/// How many groups are built before their records are handed on.
pub const MERGE_GEOMETRY_BATCH_GROUPS: usize = 256;

/// Where the batch of group `g` ends.
pub open spec fn batch_end(groups: nat, g: int) -> int {
    if g + MERGE_GEOMETRY_BATCH_GROUPS <= groups {
        g + MERGE_GEOMETRY_BATCH_GROUPS
    } else {
        groups as int
    }
}

/// The records of the groups from `start` to `end` that have geometry, in order.
pub open spec fn emitted(
    groups: Seq<GroupWork>,
    built: Seq<DistantStatic>,
    start: int,
    end: int,
) -> Seq<(Seq<char>, DistantStatic)>
    decreases end,
{
    if end <= start || end <= 0 {
        Seq::empty()
    } else if built[end - 1].subsets@.len() > 0 {
        emitted(groups, built, start, end - 1).push((groups[end - 1].id@, built[end - 1]))
    } else {
        emitted(groups, built, start, end - 1)
    }
}

/// The records as plain values.
pub open spec fn record_views(records: Seq<(String, DistantStatic)>) -> Seq<
    (Seq<char>, DistantStatic),
> {
    records.map_values(|record: (String, DistantStatic)| (record.0@, record.1))
}

/// All groups are built.
pub open spec fn builds_all<
    P: Fn(usize, Option<usize>) -> MemberGeometry,
    J: Fn(Bound, Bound) -> Bound,
    E: Fn(&Vec<Vertex>) -> Bound,
>(
    place: P,
    join: J,
    enclose: E,
    groups: Seq<GroupWork>,
    members: Seq<MemberReading>,
    entries: Seq<LodEntry>,
    built: Seq<DistantStatic>,
) -> bool {
    forall|g: int|
        0 <= g < built.len() ==> is_built(
            join,
            enclose,
            group_geometry(place, groups, members, entries, g),
            #[trigger] built[g],
        )
}

/// The records of the batch are an answer's question: those of its groups that have geometry, in
/// order, and `answer` is what `emit` made of them.
pub open spec fn hands_on<K: Fn(Vec<(String, DistantStatic)>) -> R, R>(
    emit: K,
    groups: Seq<GroupWork>,
    built: Seq<DistantStatic>,
    start: int,
    answer: R,
) -> bool {
    exists|batch: Vec<(String, DistantStatic)>|
        record_views(batch@) == emitted(groups, built, start, batch_end(groups.len(), start))
            && #[trigger] call_ensures(emit, (batch,), answer)
}

/// Every batch of groups is handed on once, in order.
pub open spec fn hands_on_all<K: Fn(Vec<(String, DistantStatic)>) -> R, R>(
    emit: K,
    groups: Seq<GroupWork>,
    built: Seq<DistantStatic>,
    answers: Seq<R>,
) -> bool {
    &&& groups.len() <= answers.len() * MERGE_GEOMETRY_BATCH_GROUPS
    &&& answers.len() * MERGE_GEOMETRY_BATCH_GROUPS < groups.len() + MERGE_GEOMETRY_BATCH_GROUPS
    &&& forall|b: int|
        0 <= b < answers.len() ==> hands_on(
            emit,
            groups,
            built,
            b * MERGE_GEOMETRY_BATCH_GROUPS,
            #[trigger] answers[b],
        )
}

proof fn lemma_starts_grow(groups: Seq<GroupWork>, g: int, h: int)
    requires
        0 <= g <= h,
    ensures
        group_start(groups, g) <= group_start(groups, h),
        0 <= group_start(groups, g),
    decreases h,
{
    if g < h {
        lemma_starts_grow(groups, g, h - 1);
    } else if g > 0 {
        lemma_starts_grow(groups, g - 1, g - 1);
    }
}

proof fn lemma_same_triangles<J: Fn(Bound, Bound) -> Bound, E: Fn(&Vec<Vertex>) -> Bound>(
    join: J,
    enclose: E,
    before: Seq<SubsetView>,
    after: Seq<Subset>,
    end: int,
)
    requires
        all_bounds_updated(join, enclose, before, after),
        0 <= end <= after.len(),
    ensures
        subset_triangles(after, end) == view_triangles(before, end),
    decreases end,
{
    if end > 0 {
        lemma_same_triangles(join, enclose, before, after, end - 1);
        assert(bounds_updated(join, enclose, before[end - 1], after[end - 1]));
        assert(after[end - 1]@.triangles == before[end - 1].triangles);
        assert(corners(after[end - 1].triangles@).len() == after[end - 1].triangles@.len());
    }
}

proof fn lemma_emitted_prefix(
    groups: Seq<GroupWork>,
    built: Seq<DistantStatic>,
    longer: Seq<DistantStatic>,
    start: int,
    end: int,
)
    requires
        0 <= start,
        end <= built.len() <= longer.len(),
        forall|i: int| 0 <= i < built.len() ==> #[trigger] longer[i] == built[i],
    ensures
        emitted(groups, longer, start, end) == emitted(groups, built, start, end),
    decreases end,
{
    if end > start {
        lemma_emitted_prefix(groups, built, longer, start, end - 1);
        assert(longer[end - 1] == built[end - 1]);
    }
}

fn gather<P: Fn(usize, Option<usize>) -> MemberGeometry>(
    place: &P,
    members: &[MemberReading],
    entries: &[LodEntry],
    index: &LodIndex,
    start: usize,
    count: usize,
) -> (r: Vec<MemberGeometry>)
    requires
        index.wf(),
        indexes_from(index@, entries@, 0),
        places(*place),
        start + count <= members@.len(),
    ensures
        r@ == Seq::new(
            count as nat,
            |i: int| geometry_of(*place, members@, entries@, start + i),
        ),
{
    let mut own: Vec<MemberGeometry> = Vec::new();
    let mut i: usize = 0;
    while i < count
        invariant
            i <= count,
            start + count <= members@.len(),
            index.wf(),
            indexes_from(index@, entries@, 0),
            places(*place),
            own@.len() == i,
            forall|k: int|
                0 <= k < i ==> #[trigger] own@[k] == geometry_of(
                    *place,
                    members@,
                    entries@,
                    start + k,
                ),
        decreases count - i,
    {
        let m: usize = start + i;
        let member = &members[m];
        let at = index.get(member.static_key.as_str(), member.bucket);
        assert(at == lod_at(*member, entries@));
        let geometry = place(m, at);
        assert(geometry == geometry_of(*place, members@, entries@, start + i));
        own.push(geometry);
        i = i + 1;
    }
    own
}

/// Builds the merged statics of the groups from `start` to `end`, the first member of which is
/// `member`, and counts what came of them.
fn build_merge_batch<
    P: Fn(usize, Option<usize>) -> MemberGeometry,
    J: Fn(Bound, Bound) -> Bound,
    E: Fn(&Vec<Vertex>) -> Bound,
>(
    place: &P,
    join: &J,
    enclose: &E,
    groups: &[GroupWork],
    members: &[MemberReading],
    Ghost(statics): Ghost<Map<Seq<char>, DistantStatic>>,
    entries: &[LodEntry],
    index: &LodIndex,
    start: usize,
    end: usize,
    first: usize,
    metrics: &mut MergeSimplificationMetrics,
    Ghost(base): Ghost<MergeSimplificationMetrics>,
    Ghost(earlier): Ghost<Seq<DistantStatic>>,
) -> (r: (Vec<(String, DistantStatic)>, usize, Ghost<Seq<DistantStatic>>))
    requires
        index.wf(),
        indexes_from(index@, entries@, 0),
        groups_ready(*place, groups@, members@, statics, entries@, base),
        joins(*join),
        forall|v: Vec<Vertex>| #[trigger] call_requires(*enclose, (&v,)),
        start <= end <= groups@.len(),
        first == group_start(groups@, start as int),
        earlier.len() == start,
        builds_all(*place, *join, *enclose, groups@, members@, entries@, earlier),
        *old(metrics) == with_sums(
            with_after(base, old(metrics).member_triangle_count_after_second_pass),
            group_sums(*place, groups@, members@, entries@, start as int),
        ),
    ensures
        ({
            let built = r.2@;
            &&& built.len() == end
            &&& built.take(start as int) == earlier
            &&& builds_all(*place, *join, *enclose, groups@, members@, entries@, built)
            &&& record_views(r.0@) == emitted(groups@, built, start as int, end as int)
        }),
        r.1 == group_start(groups@, end as int),
        *final(metrics) == with_sums(
            with_after(base, old(metrics).member_triangle_count_after_second_pass),
            group_sums(*place, groups@, members@, entries@, end as int),
        ),
{
    let ghost plain = with_after(base, metrics.member_triangle_count_after_second_pass);
    let mut records: Vec<(String, DistantStatic)> = Vec::new();
    let ghost mut built: Seq<DistantStatic> = earlier;
    let total: usize = members.len();
    let mut member: usize = first;
    let mut g: usize = start;
    proof {
        assert(record_views(records@) =~= emitted(groups@, built, start as int, start as int));
        assert(built.take(start as int) =~= earlier);
    }
    while g < end
        invariant
            start <= g <= end <= groups@.len(),
            total == members@.len(),
            index.wf(),
            indexes_from(index@, entries@, 0),
            member == group_start(groups@, g as int),
            built.len() == g,
            built.take(start as int) == earlier,
            joins(*join),
            forall|v: Vec<Vertex>| #[trigger] call_requires(*enclose, (&v,)),
            groups_ready(*place, groups@, members@, statics, entries@, base),
            plain == with_after(base, plain.member_triangle_count_after_second_pass),
            *metrics == with_sums(
                plain,
                group_sums(*place, groups@, members@, entries@, g as int),
            ),
            builds_all(*place, *join, *enclose, groups@, members@, entries@, built),
            record_views(records@) == emitted(groups@, built, start as int, g as int),
        decreases end - g,
    {
        let ghost own_geometry = group_geometry(*place, groups@, members@, entries@, g as int);
        proof {
            lemma_starts_grow(groups@, g + 1, groups@.len() as int);
            assert(group_start(groups@, g + 1) == member + groups@[g as int].members);
            assert(all_triangles(own_geometry) <= u32::MAX);
        }
        let count: usize = groups[g].members;
        let own = gather(place, members, entries, index, member, count);
        proof {
            assert(own@ =~= own_geometry);
            assert forall|i: int| 0 <= i < own@.len() implies member_ready(#[trigger] own@[i]) by {
                assert(own@[i] == geometry_of(*place, members@, entries@, member + i));
                assert(member_ready(geometry_of(*place, members@, entries@, member + i)));
            }
        }
        let (mut merged, culled) = merge_group(own.as_slice());
        let ghost before = views(merged.subsets@);
        merged.update_bounds(join, enclose);
        let ghost sums = group_sums(*place, groups@, members@, entries@, g as int);
        let ghost next = group_sums(*place, groups@, members@, entries@, g + 1);
        proof {
            assert(before == merged_subsets(group_subsets(own_geometry)));
            assert(is_built(*join, *enclose, own_geometry, merged));
            lemma_same_triangles(
                *join,
                *enclose,
                group_result(own_geometry),
                merged.subsets@,
                merged.subsets@.len() as int,
            );
            assert(next == with_group(sums, own_geometry));
            assert(sums_fit(base, sums));
            assert(sums_fit(base, next));
        }
        let ghost held = *metrics;
        let keeps: bool = tally_result(metrics, &merged, &culled);
        proof {
            assert(held == with_sums(plain, sums));
            assert(merged.subsets@.len() == group_result(own_geometry).len());
            assert(*metrics == with_result(held, merged.subsets@, culled));
            assert(*metrics == with_sums(plain, next));
        }
        let ghost old_built = built;
        let ghost old_records = records@;
        proof {
            built = built.push(merged);
            assert(built.take(start as int) =~= old_built.take(start as int));
            lemma_emitted_prefix(groups@, old_built, built, start as int, g as int);
            assert forall|h: int| 0 <= h < built.len() implies is_built(
                *join,
                *enclose,
                group_geometry(*place, groups@, members@, entries@, h),
                #[trigger] built[h],
            ) by {
                if h < g {
                    assert(built[h] == old_built[h]);
                }
            }
        }
        if keeps {
            records.push((groups[g].id.clone(), merged));
            proof {
                assert(record_views(records@) =~= record_views(old_records).push(
                    (groups@[g as int].id@, merged),
                ));
            }
        }
        member = member + count;
        g = g + 1;
    }
    (records, member, Ghost(built))
}

/// Builds the merged statics of the selected groups, a batch of groups at a time, and counts what
/// came of them. The records of a batch are handed to `emit` before the next batch is built, and
/// what it makes of them is collected. `members` holds the members of all groups, group after group,
/// and `entries` the simplified geometry that was asked for. `place` gives a member's geometry at
/// its place, from its simplified geometry where there is any; `join` and `enclose` serve to compute
/// bounds.
///
/// Groups whose geometry came out empty are counted and dropped.
pub fn build_merge_batches<
    P: Fn(usize, Option<usize>) -> MemberGeometry,
    J: Fn(Bound, Bound) -> Bound,
    E: Fn(&Vec<Vertex>) -> Bound,
    K: Fn(Vec<(String, DistantStatic)>) -> R,
    R,
>(
    place: &P,
    join: &J,
    enclose: &E,
    emit: &K,
    groups: &[GroupWork],
    members: &[MemberReading],
    statics: &TextMap<DistantStatic>,
    entries: &[LodEntry],
    metrics: &mut MergeSimplificationMetrics,
) -> (r: Vec<R>)
    requires
        statics.wf(),
        readings_ready(members@, statics@),
        triangles_after(members@, statics@, entries@, members@.len() as int) <= usize::MAX,
        groups_ready(*place, groups@, members@, statics@, entries@, *old(metrics)),
        joins(*join),
        forall|v: Vec<Vertex>| #[trigger] call_requires(*enclose, (&v,)),
        forall|batch: Vec<(String, DistantStatic)>| #[trigger] call_requires(*emit, (batch,)),
    ensures
        exists|built: Seq<DistantStatic>|
            {
                &&& built.len() == groups@.len()
                &&& #[trigger] builds_all(
                    *place,
                    *join,
                    *enclose,
                    groups@,
                    members@,
                    entries@,
                    built,
                )
                &&& hands_on_all(*emit, groups@, built, r@)
            },
        *final(metrics) == with_sums(
            with_after(
                *old(metrics),
                triangles_after(members@, statics@, entries@, members@.len() as int) as usize,
            ),
            group_sums(*place, groups@, members@, entries@, groups@.len() as int),
        ),
{
    let ghost base = *metrics;
    let index = index_entries(entries);
    metrics.member_triangle_count_after_second_pass =
    count_after_second_pass(members, statics, entries, &index);
    let ghost plain = *metrics;
    let count: usize = groups.len();
    let mut answers: Vec<R> = Vec::new();
    let ghost mut built: Seq<DistantStatic> = Seq::empty();
    let mut member: usize = 0;
    let mut g: usize = 0;
    proof {
        assert(plain == with_after(base, plain.member_triangle_count_after_second_pass));
        assert(with_sums(plain, group_sums(*place, groups@, members@, entries@, 0)) == plain);
    }
    while g < count
        invariant
            g <= count,
            count == groups@.len(),
            index.wf(),
            indexes_from(index@, entries@, 0),
            member == group_start(groups@, g as int),
            built.len() == g,
            joins(*join),
            forall|v: Vec<Vertex>| #[trigger] call_requires(*enclose, (&v,)),
            forall|batch: Vec<(String, DistantStatic)>| #[trigger] call_requires(*emit, (batch,)),
            groups_ready(*place, groups@, members@, statics@, entries@, base),
            plain == with_after(base, plain.member_triangle_count_after_second_pass),
            *metrics == with_sums(
                plain,
                group_sums(*place, groups@, members@, entries@, g as int),
            ),
            builds_all(*place, *join, *enclose, groups@, members@, entries@, built),
            g <= answers@.len() * MERGE_GEOMETRY_BATCH_GROUPS,
            g < count ==> g == answers@.len() * MERGE_GEOMETRY_BATCH_GROUPS,
            answers@.len() * MERGE_GEOMETRY_BATCH_GROUPS < g + MERGE_GEOMETRY_BATCH_GROUPS,
            forall|b: int|
                0 <= b < answers@.len() ==> hands_on(
                    *emit,
                    groups@,
                    built,
                    b * MERGE_GEOMETRY_BATCH_GROUPS,
                    #[trigger] answers@[b],
                ),
        decreases count - g,
    {
        let end: usize = if count - g >= MERGE_GEOMETRY_BATCH_GROUPS {
            g + MERGE_GEOMETRY_BATCH_GROUPS
        } else {
            count
        };
        let ghost earlier = built;
        let ghost given = answers@;
        let (batch, next, now) = build_merge_batch(
            place,
            join,
            enclose,
            groups,
            members,
            Ghost(statics@),
            entries,
            &index,
            g,
            end,
            member,
            metrics,
            Ghost(base),
            Ghost(built),
        );
        let ghost handed = batch;
        let answer = emit(batch);
        answers.push(answer);
        proof {
            built = now@;
            assert(call_ensures(*emit, (handed,), answer));
            assert(end == batch_end(groups@.len(), g as int));
            assert(hands_on(*emit, groups@, built, g as int, answer));
            assert forall|b: int| 0 <= b < answers@.len() implies hands_on(
                *emit,
                groups@,
                built,
                b * MERGE_GEOMETRY_BATCH_GROUPS,
                #[trigger] answers@[b],
            ) by {
                if b < given.len() {
                    assert(answers@[b] == given[b]);
                    let start = b * MERGE_GEOMETRY_BATCH_GROUPS;
                    let old_batch = choose|old_batch: Vec<(String, DistantStatic)>|
                        record_views(old_batch@) == emitted(
                            groups@,
                            earlier,
                            start,
                            batch_end(groups@.len(), start),
                        ) && #[trigger] call_ensures(*emit, (old_batch,), answers@[b]);
                    assert forall|i: int| 0 <= i < earlier.len() implies #[trigger] built[i]
                        == earlier[i] by {
                        assert(built.take(g as int)[i] == earlier[i]);
                    }
                    lemma_emitted_prefix(
                        groups@,
                        earlier,
                        built,
                        start,
                        batch_end(groups@.len(), start),
                    );
                    assert(call_ensures(*emit, (old_batch,), answers@[b]));
                }
            }
        }
        member = next;
        g = end;
    }
    answers
}

// ---------------------------------------------------------------------------------------------
// No triangle is lost
// ---------------------------------------------------------------------------------------------

proof fn lemma_view_total(subsets: Seq<SubsetView>, end: int)
    requires
        0 <= end <= subsets.len(),
    ensures
        view_triangles(subsets, end) == triangle_total(subsets.take(end)),
    decreases end,
{
    if end > 0 {
        lemma_view_total(subsets, end - 1);
        assert(subsets.take(end).drop_last() =~= subsets.take(end - 1));
        assert(subsets.take(end).last() == subsets[end - 1]);
    }
}

/// The triangles of a member's subsets are those that the two passes take.
proof fn lemma_passes_split(subsets: Seq<Subset>, end: int)
    requires
        0 <= end <= subsets.len(),
    ensures
        subset_triangles(subsets, end) == triangles_before(views(subsets), true, end)
            + triangles_before(views(subsets), false, end),
    decreases end,
{
    if end > 0 {
        lemma_passes_split(subsets, end - 1);
        assert(views(subsets)[end - 1] == subsets[end - 1]@);
        assert(corners(subsets[end - 1].triangles@).len() == subsets[end - 1].triangles@.len());
    }
}

proof fn lemma_same_counts(a: Seq<Subset>, b: Seq<Subset>, end: int)
    requires
        views(a) == views(b),
        0 <= end <= a.len(),
    ensures
        a.len() == b.len(),
        subset_triangles(a, end) == subset_triangles(b, end),
    decreases end,
{
    assert(views(a).len() == a.len() && views(b).len() == b.len());
    if end > 0 {
        lemma_same_counts(a, b, end - 1);
        assert(views(a)[end - 1] == a[end - 1]@ && views(b)[end - 1] == b[end - 1]@);
        assert(corners(a[end - 1].triangles@).len() == a[end - 1].triangles@.len());
        assert(corners(b[end - 1].triangles@).len() == b[end - 1].triangles@.len());
    }
}

/// The triangles of the first `end` members of a group are those that they are built from.
proof fn lemma_group_after<P: Fn(usize, Option<usize>) -> MemberGeometry>(
    place: P,
    groups: Seq<GroupWork>,
    members: Seq<MemberReading>,
    statics: Map<Seq<char>, DistantStatic>,
    entries: Seq<LodEntry>,
    metrics: MergeSimplificationMetrics,
    g: int,
    end: int,
)
    requires
        groups_ready(place, groups, members, statics, entries, metrics),
        0 <= g < groups.len(),
        0 <= end <= groups[g].members,
    ensures
        ({
            let own = group_geometry(place, groups, members, entries, g);
            let start = group_start(groups, g);
            member_triangles(own, true, end) + member_triangles(own, false, end)
                == triangles_after(members, statics, entries, start + end) - triangles_after(
                members,
                statics,
                entries,
                start,
            )
        }),
    decreases end,
{
    if end > 0 {
        lemma_group_after(place, groups, members, statics, entries, metrics, g, end - 1);
        let own = group_geometry(place, groups, members, entries, g);
        let m = group_start(groups, g) + end - 1;
        lemma_starts_grow(groups, g, g);
        lemma_starts_grow(groups, g + 1, groups.len() as int);
        assert(group_start(groups, g + 1) == group_start(groups, g) + groups[g].members);
        let geometry = geometry_of(place, members, entries, m);
        assert(own[end - 1] == geometry);
        let selected = selected_subsets(members[m], statics, entries);
        lemma_passes_split(geometry.subsets@, geometry.subsets@.len() as int);
        lemma_same_counts(geometry.subsets@, selected, geometry.subsets@.len() as int);
    }
}

/// What is merged of a group and what is culled from it are its triangles.
proof fn lemma_group_total(members: Seq<MemberGeometry>)
    requires
        forall|m: int| 0 <= m < members.len() ==> member_ready(#[trigger] members[m]),
        all_triangles(members) <= u32::MAX,
    ensures
        ({
            let count = members.len() as int;
            let result = group_result(members);
            view_triangles(result, result.len() as int) + members_culled(members, true, count).0
                + members_culled(members, false, count).0 == all_triangles(members)
        }),
{
    lemma_group_triangles(members);
    let merged = merged_subsets(group_subsets(members));
    let result = group_result(members);
    lemma_geometry_total(merged, merged.len() as int);
    assert(merged.take(merged.len() as int) =~= merged);
    lemma_view_total(result, result.len() as int);
    assert(result.take(result.len() as int) =~= result);
}

/// Merging loses no triangle: those merged and those culled below the terrain are together those
/// that the members had after the second pass.
pub proof fn lemma_triangles_accounted<P: Fn(usize, Option<usize>) -> MemberGeometry>(
    place: P,
    groups: Seq<GroupWork>,
    members: Seq<MemberReading>,
    statics: Map<Seq<char>, DistantStatic>,
    entries: Seq<LodEntry>,
    metrics: MergeSimplificationMetrics,
    end: int,
)
    requires
        groups_ready(place, groups, members, statics, entries, metrics),
        0 <= end <= groups.len(),
    ensures
        ({
            let sums = group_sums(place, groups, members, entries, end);
            sums.triangles + sums.culled_triangles == triangles_after(
                members,
                statics,
                entries,
                group_start(groups, end),
            )
        }),
    decreases end,
{
    if end > 0 {
        let g = end - 1;
        lemma_triangles_accounted(place, groups, members, statics, entries, metrics, g);
        let own = group_geometry(place, groups, members, entries, g);
        lemma_starts_grow(groups, g, g);
        lemma_starts_grow(groups, end, groups.len() as int);
        assert(group_start(groups, end) == group_start(groups, g) + groups[g].members);
        assert forall|i: int| 0 <= i < own.len() implies member_ready(#[trigger] own[i]) by {
            let m = group_start(groups, g) + i;
            assert(own[i] == geometry_of(place, members, entries, m));
            assert(member_ready(geometry_of(place, members, entries, m)));
        }
        assert(all_triangles(own) <= u32::MAX);
        lemma_group_total(own);
        lemma_group_after(
            place,
            groups,
            members,
            statics,
            entries,
            metrics,
            g,
            groups[g].members as int,
        );
    }
}

} // verus!
