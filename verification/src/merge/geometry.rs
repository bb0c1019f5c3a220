//! Building the geometry of a merge group.

use crate::merge::absorb::{
    absorbed, all_tiled, appendable, blank, culled_before, lemma_appended_triangles,
    lemma_member_tiled, merge_subsets, origin_valid, palette_kept, palettes_kept, places_all, tiled,
    triangles_before, triangles_within, vertices_before, with_member, ComponentOrigin,
    SubsetPlacement,
};
use crate::merge::plan::ONE_BITS;
use crate::model::append::{merges, SubterrainCullTally};
use crate::model::merge::{
    all_tidy, all_well_kept, lemma_geometry_total, lemma_merge_keeps_triangles, lemma_merge_well_kept, lemma_tidy_sound,
    lemma_total_bound, merged_subsets, tidy, triangle_total, views, well_kept, SubsetView,
};
use crate::model::{DistantStatic, StaticType, Subset};
use vstd::prelude::*;

verus! {

/// One member's geometry at its place.
#[derive(Debug)]
pub struct MemberGeometry {
    /// The member's subsets, simplified or as they are.
    pub subsets: Vec<Subset>,
    /// Place of each subset.
    pub placements: Vec<SubsetPlacement>,
    /// What the member's triangles are recorded as.
    pub origin: ComponentOrigin,
}

/// The member can be appended.
pub open spec fn member_ready(member: MemberGeometry) -> bool {
    &&& member.placements@.len() == member.subsets@.len()
    &&& origin_valid(member.origin)
    &&& forall|s: int|
        0 <= s < member.subsets@.len() ==> appendable((#[trigger] member.subsets@[s])@)
            && places_all(member.placements@[s], member.subsets@[s]@)
}

/// The palettes of all members are kept.
pub open spec fn members_palettes_kept(members: Seq<MemberGeometry>) -> bool {
    forall|m: int| 0 <= m < members.len() ==> palettes_kept(views((#[trigger] members[m]).subsets@))
}

/// Triangles that one pass takes from the first `end` members.
pub open spec fn member_triangles(members: Seq<MemberGeometry>, opaque: bool, end: int) -> nat
    decreases end,
{
    if end <= 0 {
        0
    } else {
        member_triangles(members, opaque, end - 1) + triangles_before(
            views(members[end - 1].subsets@),
            opaque,
            members[end - 1].subsets@.len() as int,
        )
    }
}

/// Vertices that one pass takes from the first `end` members.
pub open spec fn member_vertices(members: Seq<MemberGeometry>, opaque: bool, end: int) -> nat
    decreases end,
{
    if end <= 0 {
        0
    } else {
        member_vertices(members, opaque, end - 1) + vertices_before(
            views(members[end - 1].subsets@),
            opaque,
            members[end - 1].subsets@.len() as int,
        )
    }
}

/// Triangles of the members: every subset is taken by one of the passes.
pub open spec fn all_triangles(members: Seq<MemberGeometry>) -> nat {
    member_triangles(members, true, members.len() as int) + member_triangles(
        members,
        false,
        members.len() as int,
    )
}

/// Vertices of the members.
pub open spec fn all_vertices(members: Seq<MemberGeometry>) -> nat {
    member_vertices(members, true, members.len() as int) + member_vertices(
        members,
        false,
        members.len() as int,
    )
}

/// The merged subsets after one pass over the first `end` members.
pub open spec fn with_members(
    list: Seq<SubsetView>,
    members: Seq<MemberGeometry>,
    opaque: bool,
    end: int,
) -> Seq<SubsetView>
    decreases end,
{
    if end <= 0 {
        list
    } else {
        let member = members[end - 1];
        with_member(
            with_members(list, members, opaque, end - 1),
            views(member.subsets@),
            member.placements@,
            opaque,
            member.origin,
            member.subsets@.len() as int,
        )
    }
}

/// Triangles and vertices that culling removes in one pass over the first `end` members.
pub open spec fn members_culled(
    members: Seq<MemberGeometry>,
    opaque: bool,
    end: int,
) -> (int, int)
    decreases end,
{
    if end <= 0 {
        (0, 0)
    } else {
        let before = members_culled(members, opaque, end - 1);
        let member = members[end - 1];
        let own = culled_before(
            views(member.subsets@),
            member.placements@,
            opaque,
            member.subsets@.len() as int,
        );
        (before.0 + own.0, before.1 + own.1)
    }
}

/// The subsets of a merged group before they are joined: opaque members first, then those with
/// alpha.
pub open spec fn group_subsets(members: Seq<MemberGeometry>) -> Seq<SubsetView> {
    let count = members.len() as int;
    with_members(with_members(Seq::empty(), members, true, count), members, false, count)
}

proof fn lemma_member_total(
    list: Seq<SubsetView>,
    sources: Seq<SubsetView>,
    placements: Seq<SubsetPlacement>,
    opaque: bool,
    origin: ComponentOrigin,
    end: int,
)
    ensures
        triangle_total(with_member(list, sources, placements, opaque, origin, end))
            == triangle_total(list) + triangles_before(sources, opaque, end) - culled_before(
            sources,
            placements,
            opaque,
            end,
        ).0,
    decreases end,
{
    if end > 0 {
        lemma_member_total(list, sources, placements, opaque, origin, end - 1);
        let before = with_member(list, sources, placements, opaque, origin, end - 1);
        let source = sources[end - 1];
        let placement = placements[end - 1];
        if source.has_alpha != opaque {
            if before.len() > 0 && merges(source, before.last()) {
                let grown = absorbed(before.last(), source, placement, opaque, origin);
                lemma_appended_triangles(before.last(), source, placement, opaque);
                assert(before.drop_last().push(grown).drop_last() =~= before.drop_last());
            } else {
                let grown = absorbed(blank(), source, placement, opaque, origin);
                lemma_appended_triangles(blank(), source, placement, opaque);
                assert(before.push(grown).drop_last() =~= before);
            }
        }
    }
}

proof fn lemma_total_within(list: Seq<SubsetView>, limit: int)
    requires
        triangle_total(list) <= limit,
    ensures
        triangles_within(list, limit),
{
    assert forall|i: int| 0 <= i < list.len() implies (#[trigger] list[i]).triangles.len()
        <= limit by {
        lemma_total_bound(list, i);
    }
}

proof fn lemma_members_grow(members: Seq<MemberGeometry>, opaque: bool, i: int, j: int)
    requires
        0 <= i <= j,
    ensures
        member_triangles(members, opaque, i) <= member_triangles(members, opaque, j),
        member_vertices(members, opaque, i) <= member_vertices(members, opaque, j),
    decreases j,
{
    if i < j {
        lemma_members_grow(members, opaque, i, j - 1);
    }
}

proof fn lemma_culled_bounds(
    sources: Seq<SubsetView>,
    placements: Seq<SubsetPlacement>,
    opaque: bool,
    end: int,
)
    ensures
        0 <= culled_before(sources, placements, opaque, end).0 <= triangles_before(
            sources,
            opaque,
            end,
        ),
        culled_before(sources, placements, opaque, end).1 <= vertices_before(sources, opaque, end),
    decreases end,
{
    if end > 0 {
        lemma_culled_bounds(sources, placements, opaque, end - 1);
        lemma_appended_triangles(blank(), sources[end - 1], placements[end - 1], opaque);
    }
}

/// Triangles after one pass over the first `end` members, and that the merged subsets stay tiled.
proof fn lemma_pass_triangles(
    list: Seq<SubsetView>,
    members: Seq<MemberGeometry>,
    opaque: bool,
    end: int,
)
    requires
        0 <= end <= members.len(),
        forall|m: int| 0 <= m < members.len() ==> member_ready(#[trigger] members[m]),
        all_tiled(list),
        triangle_total(list) + member_triangles(members, opaque, members.len() as int) <= u32::MAX,
    ensures
        all_tiled(with_members(list, members, opaque, end)),
        triangle_total(with_members(list, members, opaque, end)) == triangle_total(list)
            + member_triangles(members, opaque, end) - members_culled(members, opaque, end).0,
        0 <= members_culled(members, opaque, end).0 <= member_triangles(members, opaque, end),
    decreases end,
{
    if end > 0 {
        lemma_pass_triangles(list, members, opaque, end - 1);
        let member = members[end - 1];
        let sources = views(member.subsets@);
        let own = sources.len() as int;
        let before = with_members(list, members, opaque, end - 1);
        assert(member_ready(member));
        lemma_members_grow(members, opaque, end, members.len() as int);
        lemma_member_total(before, sources, member.placements@, opaque, member.origin, own);
        lemma_total_within(before, u32::MAX - triangles_before(sources, opaque, own));
        lemma_culled_bounds(sources, member.placements@, opaque, own);
        assert forall|s: int| 0 <= s < sources.len() implies appendable(#[trigger] sources[s])
            && places_all(member.placements@[s], sources[s]) by {
            assert(appendable(member.subsets@[s]@));
        }
        lemma_member_tiled(before, sources, member.placements@, opaque, member.origin, own);
    }
}

/// The merged subsets of a group hold its triangles but for the culled ones.
pub proof fn lemma_group_triangles(members: Seq<MemberGeometry>)
    requires
        forall|m: int| 0 <= m < members.len() ==> member_ready(#[trigger] members[m]),
        all_triangles(members) <= u32::MAX,
    ensures
        all_tidy(merged_subsets(group_subsets(members))),
        triangle_total(merged_subsets(group_subsets(members))) == all_triangles(members)
            - members_culled(members, true, members.len() as int).0 - members_culled(
            members,
            false,
            members.len() as int,
        ).0,
{
    let count = members.len() as int;
    let none = Seq::<SubsetView>::empty();
    assert(triangle_total(none) == 0);
    lemma_pass_triangles(none, members, true, count);
    lemma_pass_triangles(with_members(none, members, true, count), members, false, count);
    let whole = group_subsets(members);
    assert forall|i: int| 0 <= i < whole.len() implies tidy(#[trigger] whole[i]) by {
        assert(tiled(whole[i]));
    }
    lemma_merge_keeps_triangles(whole);
    lemma_geometry_total(whole, whole.len() as int);
    assert(whole.take(whole.len() as int) =~= whole);
}

/// Appends every member in one pass.
fn add_members(
    list: &mut Vec<Subset>,
    members: &[MemberGeometry],
    opaque: bool,
    tally: &mut SubterrainCullTally,
)
    requires
        forall|m: int| 0 <= m < members@.len() ==> member_ready(#[trigger] members@[m]),
        all_tiled(views(old(list)@)),
        triangle_total(views(old(list)@)) + member_triangles(members@, opaque, members@.len() as int)
            <= u32::MAX,
        old(tally).triangles + member_triangles(members@, opaque, members@.len() as int) <= usize::MAX,
        old(tally).vertices + member_vertices(members@, opaque, members@.len() as int) <= usize::MAX,
    ensures
        views(final(list)@) == with_members(
            views(old(list)@),
            members@,
            opaque,
            members@.len() as int,
        ),
        all_tiled(views(final(list)@)),
        members_palettes_kept(members@) && palettes_kept(views(old(list)@)) ==> palettes_kept(
            views(final(list)@),
        ),
        triangle_total(views(final(list)@)) == triangle_total(views(old(list)@))
            + member_triangles(members@, opaque, members@.len() as int) - members_culled(
            members@,
            opaque,
            members@.len() as int,
        ).0,
        final(tally).triangles == old(tally).triangles + members_culled(
            members@,
            opaque,
            members@.len() as int,
        ).0,
        final(tally).vertices == old(tally).vertices + members_culled(
            members@,
            opaque,
            members@.len() as int,
        ).1,
        members_culled(members@, opaque, members@.len() as int).0 <= member_triangles(
            members@,
            opaque,
            members@.len() as int,
        ),
        members_culled(members@, opaque, members@.len() as int).1 <= member_vertices(
            members@,
            opaque,
            members@.len() as int,
        ),
{
    let ghost start = views(list@);
    let ghost count = members@.len() as int;
    let mut m: usize = 0;
    while m < members.len()
        invariant
            m <= members@.len(),
            count == members@.len(),
            start == views(old(list)@),
            forall|k: int| 0 <= k < members@.len() ==> member_ready(#[trigger] members@[k]),
            triangle_total(start) + member_triangles(members@, opaque, count) <= u32::MAX,
            old(tally).triangles + member_triangles(members@, opaque, count) <= usize::MAX,
            old(tally).vertices + member_vertices(members@, opaque, count) <= usize::MAX,
            views(list@) == with_members(start, members@, opaque, m as int),
            all_tiled(views(list@)),
            members_palettes_kept(members@) && palettes_kept(start) ==> palettes_kept(views(list@)),
            triangle_total(views(list@)) == triangle_total(start) + member_triangles(
                members@,
                opaque,
                m as int,
            ) - members_culled(members@, opaque, m as int).0,
            tally.triangles == old(tally).triangles + members_culled(
                members@,
                opaque,
                m as int,
            ).0,
            tally.vertices == old(tally).vertices + members_culled(members@, opaque, m as int).1,
            0 <= members_culled(members@, opaque, m as int).0 <= member_triangles(
                members@,
                opaque,
                m as int,
            ),
            members_culled(members@, opaque, m as int).1 <= member_vertices(members@, opaque, m as int),
        decreases members@.len() - m,
    {
        let member = &members[m];
        let ghost sources = views(member.subsets@);
        let ghost own = sources.len() as int;
        proof {
            assert(member_ready(members@[m as int]));
            lemma_members_grow(members@, opaque, m + 1, count);
            lemma_member_total(
                views(list@),
                sources,
                member.placements@,
                opaque,
                member.origin,
                own,
            );
            lemma_total_within(views(list@), u32::MAX - triangles_before(sources, opaque, own));
            lemma_culled_bounds(sources, member.placements@, opaque, own);
            assert forall|s: int| 0 <= s < sources.len() implies appendable(#[trigger] sources[s])
                && places_all(member.placements@[s], sources[s]) by {
                assert(appendable(member.subsets@[s]@));
            }
            lemma_member_tiled(
                views(list@),
                sources,
                member.placements@,
                opaque,
                member.origin,
                own,
            );
        }
        merge_subsets(
            list,
            member.subsets.as_slice(),
            member.placements.as_slice(),
            opaque,
            &member.origin,
            tally,
        );
        m = m + 1;
    }
}

/// Merges the members of a group into one static: opaque geometry first, then geometry with alpha,
/// and then compatible subsets. Bounds are left to be computed.
///
/// The static keeps no classification of its own: its components carry those of their sources.
pub fn merge_group(members: &[MemberGeometry]) -> (r: (DistantStatic, SubterrainCullTally))
    requires
        forall|m: int| 0 <= m < members@.len() ==> member_ready(#[trigger] members@[m]),
        all_triangles(members@) <= u32::MAX,
        all_vertices(members@) <= usize::MAX,
    ensures
        views(r.0.subsets@) == merged_subsets(group_subsets(members@)),
        all_tidy(views(r.0.subsets@)),
        members_palettes_kept(members@) ==> all_well_kept(views(r.0.subsets@)),
        r.0.static_type == StaticType::StaticAuto,
        r.0.max_scale == ONE_BITS,
        !r.0.is_door,
        r.0.horizon_footprint_eligible,
        ({
            let opaque = members_culled(members@, true, members@.len() as int);
            let alpha = members_culled(members@, false, members@.len() as int);
            &&& r.1.triangles == opaque.0 + alpha.0
            &&& r.1.vertices == opaque.1 + alpha.1
        }),
{
    let mut tally = SubterrainCullTally::default();
    let mut list: Vec<Subset> = Vec::new();
    proof {
        assert(views(list@) =~= Seq::empty());
        assert(triangle_total(views(list@)) == 0);
    }
    add_members(&mut list, members, true, &mut tally);
    add_members(&mut list, members, false, &mut tally);
    let ghost whole = views(list@);
    proof {
        assert(whole == group_subsets(members@));
        assert forall|i: int| 0 <= i < whole.len() implies tidy(#[trigger] whole[i]) by {
            assert(tiled(whole[i]));
        }
        lemma_tidy_sound(whole);
        lemma_merge_keeps_triangles(whole);
        if members_palettes_kept(members@) {
            assert forall|i: int| 0 <= i < whole.len() implies well_kept(#[trigger] whole[i]) by {
                assert(tiled(whole[i]));
                assert(palette_kept(whole[i]));
            }
            lemma_merge_well_kept(whole);
        }
    }
    let mut merged = DistantStatic::default();
    merged.static_type = StaticType::StaticAuto;
    merged.max_scale = ONE_BITS;
    merged.horizon_footprint_eligible = true;
    merged.subsets = list;
    merged.merge_subsets();
    (merged, tally)
}

} // verus!
