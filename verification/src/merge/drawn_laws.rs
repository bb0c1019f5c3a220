//! That a merged group draws what its members draw.

use crate::merge::absorb::{
    absorbed, appendable, blank, places_all, with_member, with_member_subset, ComponentOrigin,
    SubsetPlacement,
};
use crate::merge::geometry::{group_subsets, member_ready, with_members, MemberGeometry};
use crate::model::append::{merges, with_source, with_survivors, Placement};
use crate::model::drawn_laws::{
    all_within, drawn_by, drawn_by_all, lemma_merge_draws_the_same, lemma_merges_drawn_alike,
    lemma_source_appended, lemma_survivors_appended, lemma_survivors_used, moved, shown_by, Drawn,
};
use crate::model::merge::{corners_within, merged_subsets, views, SubsetView};
use vstd::multiset::Multiset;
use vstd::prelude::*;

verus! {

/// What a member's subset draws at its place: all of it, or what has a corner that is not buried.
pub open spec fn placed_drawn(source: SubsetView, placement: SubsetPlacement) -> Seq<Drawn> {
    let there = moved(source, placement.places@);
    match placement.buried {
        Some(buried) => shown_by(there, buried@, source.triangles.len() as int),
        None => drawn_by(there),
    }
}

/// What the first `end` subsets of a member draw, of those with alpha or of those without.
pub open spec fn subsets_drawn(
    sources: Seq<SubsetView>,
    placements: Seq<SubsetPlacement>,
    has_alpha: bool,
    end: int,
) -> Multiset<Drawn>
    decreases end,
{
    if end <= 0 {
        Multiset::empty()
    } else {
        let before = subsets_drawn(sources, placements, has_alpha, end - 1);
        if sources[end - 1].has_alpha == has_alpha {
            before.add(placed_drawn(sources[end - 1], placements[end - 1]).to_multiset())
        } else {
            before
        }
    }
}

/// What the first `end` members draw, of their subsets with alpha or of those without.
pub open spec fn members_drawn(members: Seq<MemberGeometry>, has_alpha: bool, end: int) -> Multiset<
    Drawn,
>
    decreases end,
{
    if end <= 0 {
        Multiset::empty()
    } else {
        let member = members[end - 1];
        members_drawn(members, has_alpha, end - 1).add(
            subsets_drawn(
                views(member.subsets@),
                member.placements@,
                has_alpha,
                member.subsets@.len() as int,
            ),
        )
    }
}

/// Every subset has vertices.
pub open spec fn all_have_vertices(members: Seq<MemberGeometry>) -> bool {
    forall|m: int, s: int|
        0 <= m < members.len() && 0 <= s < members[m].subsets@.len() ==> (
        #[trigger] members[m].subsets@[s]).vertices@.len() > 0
}

/// Every merged subset may be drawn with 16-bit indices.
spec fn list_ready(list: Seq<SubsetView>) -> bool {
    &&& all_within(list)
    &&& forall|i: int| 0 <= i < list.len() ==> (#[trigger] list[i]).vertices.len() <= 0xffff
}

proof fn lemma_absorbed_drawn(
    merged: SubsetView,
    source: SubsetView,
    placement: SubsetPlacement,
    opaque: bool,
    origin: ComponentOrigin,
)
    requires
        appendable(source),
        places_all(placement, source),
        source.vertices.len() > 0,
        source.has_alpha == !opaque,
        corners_within(merged.triangles, merged.vertices.len() as int),
        merges(source, merged) || merged == blank(),
    ensures
        drawn_by(absorbed(merged, source, placement, opaque, origin)) == drawn_by(merged)
            + placed_drawn(source, placement),
        corners_within(
            absorbed(merged, source, placement, opaque, origin).triangles,
            absorbed(merged, source, placement, opaque, origin).vertices.len() as int,
        ),
        absorbed(merged, source, placement, opaque, origin).vertices.len() <= 0xffff,
{
    if merges(source, merged) {
        lemma_merges_drawn_alike(source, merged);
    }
    let whole = absorbed(merged, source, placement, opaque, origin);
    match placement.buried {
        Some(buried) => {
            let grown = with_survivors(
                merged,
                source,
                placement.places@,
                opaque,
                buried@,
            );
            let list = lemma_survivors_appended(
                merged,
                source,
                placement.places@,
                opaque,
                buried@,
            );
            lemma_vertices_used(merged, source, placement.places@, opaque, buried@);
            assert(drawn_by(whole) =~= drawn_by(grown));
        },
        None => {
            let grown = with_source(
                merged,
                source,
                placement.places@,
                opaque,
            );
            lemma_source_appended(merged, source, placement.places@, opaque);
            assert(drawn_by(whole) =~= drawn_by(grown));
        },
    }
}

/// No more vertices survive than there are.
proof fn lemma_vertices_used(
    merged: SubsetView,
    source: SubsetView,
    places: Seq<Placement>,
    opaque: bool,
    buried: Seq<bool>,
)
    requires
        corners_within(source.triangles, source.vertices.len() as int),
    ensures
        with_survivors(
            merged,
            source,
            places,
            opaque,
            buried,
        ).vertices.len() <= merged.vertices.len() + source.vertices.len(),
{
    lemma_survivors_used(source, buried);
}

proof fn lemma_member_subset_drawn(
    list: Seq<SubsetView>,
    source: SubsetView,
    placement: SubsetPlacement,
    opaque: bool,
    origin: ComponentOrigin,
)
    requires
        list_ready(list),
        appendable(source),
        places_all(placement, source),
        source.vertices.len() > 0,
    ensures
        list_ready(with_member_subset(list, source, placement, opaque, origin)),
        drawn_by_all(with_member_subset(list, source, placement, opaque, origin)) == if source.has_alpha
            == !opaque {
            drawn_by_all(list).add(placed_drawn(source, placement).to_multiset())
        } else {
            drawn_by_all(list)
        },
{
    let next = with_member_subset(list, source, placement, opaque, origin);
    let more = placed_drawn(source, placement);
    if source.has_alpha == !opaque {
        if list.len() > 0 && merges(source, list.last()) {
            let whole = absorbed(list.last(), source, placement, opaque, origin);
            lemma_absorbed_drawn(list.last(), source, placement, opaque, origin);
            assert(next.drop_last() =~= list.drop_last());
            vstd::seq_lib::lemma_multiset_commutative(drawn_by(list.last()), more);
            let front = drawn_by_all(list.drop_last());
            let own = drawn_by(list.last()).to_multiset();
            assert(front.add(own.add(more.to_multiset())) =~= front.add(own).add(
                more.to_multiset(),
            ));
            assert forall|i: int| 0 <= i < next.len() implies corners_within(
                (#[trigger] next[i]).triangles,
                next[i].vertices.len() as int,
            ) && next[i].vertices.len() <= 0xffff by {
                if i < list.len() - 1 {
                    assert(next[i] == list[i]);
                } else {
                    assert(next[i] == whole);
                }
            }
        } else {
            let whole = absorbed(blank(), source, placement, opaque, origin);
            lemma_absorbed_drawn(blank(), source, placement, opaque, origin);
            assert(next.drop_last() =~= list);
            assert(drawn_by(blank()) + more =~= more);
            assert forall|i: int| 0 <= i < next.len() implies corners_within(
                (#[trigger] next[i]).triangles,
                next[i].vertices.len() as int,
            ) && next[i].vertices.len() <= 0xffff by {
                if i < list.len() {
                    assert(next[i] == list[i]);
                } else {
                    assert(next[i] == whole);
                }
            }
        }
    }
}

proof fn lemma_member_drawn(
    list: Seq<SubsetView>,
    sources: Seq<SubsetView>,
    placements: Seq<SubsetPlacement>,
    opaque: bool,
    origin: ComponentOrigin,
    end: int,
)
    requires
        list_ready(list),
        placements.len() == sources.len(),
        0 <= end <= sources.len(),
        forall|s: int|
            0 <= s < sources.len() ==> appendable(#[trigger] sources[s]) && places_all(
                placements[s],
                sources[s],
            ) && sources[s].vertices.len() > 0,
    ensures
        list_ready(with_member(list, sources, placements, opaque, origin, end)),
        drawn_by_all(with_member(list, sources, placements, opaque, origin, end))
            == drawn_by_all(list).add(subsets_drawn(sources, placements, !opaque, end)),
    decreases end,
{
    if end <= 0 {
        assert(drawn_by_all(list).add(Multiset::empty()) =~= drawn_by_all(list));
    } else {
        lemma_member_drawn(list, sources, placements, opaque, origin, end - 1);
        let before = with_member(list, sources, placements, opaque, origin, end - 1);
        let source = sources[end - 1];
        let placement = placements[end - 1];
        lemma_member_subset_drawn(before, source, placement, opaque, origin);
        let some = subsets_drawn(sources, placements, !opaque, end - 1);
        let more = placed_drawn(source, placement).to_multiset();
        assert(drawn_by_all(list).add(some).add(more) =~= drawn_by_all(list).add(some.add(more)));
    }
}

proof fn lemma_members_drawn(
    list: Seq<SubsetView>,
    members: Seq<MemberGeometry>,
    opaque: bool,
    end: int,
)
    requires
        list_ready(list),
        0 <= end <= members.len(),
        forall|m: int| 0 <= m < members.len() ==> member_ready(#[trigger] members[m]),
        all_have_vertices(members),
    ensures
        list_ready(with_members(list, members, opaque, end)),
        drawn_by_all(with_members(list, members, opaque, end)) == drawn_by_all(list).add(
            members_drawn(members, !opaque, end),
        ),
    decreases end,
{
    if end <= 0 {
        assert(drawn_by_all(list).add(Multiset::empty()) =~= drawn_by_all(list));
    } else {
        lemma_members_drawn(list, members, opaque, end - 1);
        let member = members[end - 1];
        let sources = views(member.subsets@);
        assert forall|s: int| 0 <= s < sources.len() implies appendable(#[trigger] sources[s])
            && places_all(member.placements@[s], sources[s]) && sources[s].vertices.len() > 0 by {
            assert(sources[s] == member.subsets@[s]@);
            assert(members[end - 1].subsets@[s].vertices@.len() > 0);
        }
        lemma_member_drawn(
            with_members(list, members, opaque, end - 1),
            sources,
            member.placements@,
            opaque,
            member.origin,
            member.subsets@.len() as int,
        );
        let some = members_drawn(members, !opaque, end - 1);
        let more = subsets_drawn(
            sources,
            member.placements@,
            !opaque,
            member.subsets@.len() as int,
        );
        assert(drawn_by_all(list).add(some).add(more) =~= drawn_by_all(list).add(some.add(more)));
    }
}

/// A merged group draws exactly what its members draw at their places: every triangle of every
/// subset, but for those of which all corners are buried, each once and drawn as in its source.
pub proof fn lemma_group_draws_members(members: Seq<MemberGeometry>)
    requires
        forall|m: int| 0 <= m < members.len() ==> member_ready(#[trigger] members[m]),
        all_have_vertices(members),
    ensures
        drawn_by_all(merged_subsets(group_subsets(members))) == members_drawn(
            members,
            true,
            members.len() as int,
        ).add(members_drawn(members, false, members.len() as int)),
{
    let n = members.len() as int;
    let first = with_members(Seq::empty(), members, true, n);
    lemma_members_drawn(Seq::empty(), members, true, n);
    lemma_members_drawn(first, members, false, n);
    lemma_merge_draws_the_same(group_subsets(members));
    let solid = members_drawn(members, false, n);
    let clear = members_drawn(members, true, n);
    assert(Multiset::<Drawn>::empty().add(solid).add(clear) =~= clear.add(solid));
}

} // verus!
