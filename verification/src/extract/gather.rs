//! The statics of all meshes, in order.

use crate::atlas::apply::DistantStatics;
use crate::model::DistantStatic;
use crate::sort::{distinct_ranks, lemma_ranked_strict, sort_ranked, strictly_ranked, Ranked};
use crate::text::{lemma_text_order, lemma_text_transitive, str_le, text_le};
use vstd::prelude::*;

verus! {

/// Statics sort by key.
impl Ranked for (String, DistantStatic) {
    open spec fn ranks_le(self, other: Self) -> bool {
        text_le(self.0@, other.0@)
    }

    proof fn rank_total(a: Self, b: Self) {
        lemma_text_order(a.0@, b.0@);
    }

    proof fn rank_transitive(a: Self, b: Self, c: Self) {
        lemma_text_transitive(a.0@, b.0@, c.0@);
    }

    fn rank_le(&self, other: &Self) -> (r: bool) {
        str_le(self.0.as_str(), other.0.as_str())
    }
}

/// The extraction gave this static under its key.
pub open spec fn gave(
    extracted: Seq<(String, Option<DistantStatic>)>,
    entry: (String, DistantStatic),
) -> bool {
    extracted.contains((entry.0, Some(entry.1)))
}

/// The statics of the meshes that gave one, sorted by key.
pub fn gather_statics(extracted: Vec<(String, Option<DistantStatic>)>) -> (r: DistantStatics)
    requires
        forall|i: int, j: int|
            0 <= i < j < extracted@.len() ==> (#[trigger] extracted@[i]).0@ != (
            #[trigger] extracted@[j]).0@,
    ensures
        strictly_ranked(r@),
        forall|entry: (String, DistantStatic)| #[trigger]
            r@.contains(entry) <==> gave(extracted@, entry),
{
    let ghost source = extracted@;
    let mut rest = extracted;
    let mut found: Vec<(String, DistantStatic)> = Vec::new();
    while rest.len() > 0
        invariant
            rest@ == source.take(rest@.len() as int),
            rest@.len() <= source.len(),
            forall|i: int, j: int|
                0 <= i < j < source.len() ==> (#[trigger] source[i]).0@ != (
                #[trigger] source[j]).0@,
            forall|entry: (String, DistantStatic)| #[trigger]
                found@.contains(entry) <==> gave(source.skip(rest@.len() as int), entry),
            forall|i: int, j: int|
                0 <= i < j < found@.len() ==> (#[trigger] found@[i]).0@ != (
                #[trigger] found@[j]).0@,
        decreases rest@.len(),
    {
        let ghost at = rest@.len() - 1;
        let ghost before = found@;
        let ghost later = source.skip(at + 1);
        let ghost next = source[at];
        proof {
            assert(source.skip(at) =~= seq![next] + later);
            assert forall|entry: (String, DistantStatic)| gave(later, entry) implies entry.0@
                != next.0@ by {
                let k = choose|k: int| 0 <= k < later.len() && later[k] == (entry.0, Some(entry.1));
                assert(later[k] == source[at + 1 + k]);
            }
        }
        match rest.pop() {
            Some((key, Some(distant_static))) => {
                let ghost entry = (key, distant_static);
                found.push((key, distant_static));
                proof {
                    assert(found@ =~= before.push(entry));
                    assert(next == (entry.0, Some(entry.1)));
                    assert forall|i: int, j: int| 0 <= i < j < found@.len() implies (
                    #[trigger] found@[i]).0@ != (#[trigger] found@[j]).0@ by {
                        if j == before.len() {
                            assert(before.contains(before[i]));
                        }
                    }
                    assert forall|other: (String, DistantStatic)| #[trigger]
                        found@.contains(other) <==> gave(source.skip(at), other) by {
                        lemma_gave(next, later, other);
                        if before.contains(other) {
                            let k = choose|k: int| 0 <= k < before.len() && before[k] == other;
                            assert(found@[k] == other);
                        }
                        if other == entry {
                            assert(found@[before.len() as int] == other);
                        }
                        assert(before.contains(other) <==> gave(later, other));
                        if found@.contains(other) && other != entry {
                            let k = choose|k: int| 0 <= k < found@.len() && found@[k] == other;
                            assert(before[k] == other);
                        }
                    }
                }
            },
            Some((_key, None)) => {
                proof {
                    assert forall|other: (String, DistantStatic)| #[trigger]
                        found@.contains(other) <==> gave(source.skip(at), other) by {
                        lemma_gave(next, later, other);
                        assert(before.contains(other) <==> gave(later, other));
                    }
                }
            },
            None => {},
        }
        assert(rest@ =~= source.take(at));
    }
    assert(source.skip(0) =~= source);
    let sorted = sort_ranked(found);
    proof {
        assert(distinct_ranks(found@)) by {
            assert forall|i: int, j: int|
                0 <= i < found@.len() && 0 <= j < found@.len() && i != j implies !(
            (#[trigger] found@[i]).ranks_le(#[trigger] found@[j]) && found@[j].ranks_le(
                found@[i],
            )) by {
                lemma_text_order(found@[i].0@, found@[j].0@);
            }
        }
        lemma_ranked_strict(found@, sorted@);
    }
    sorted
}

proof fn lemma_gave(
    next: (String, Option<DistantStatic>),
    later: Seq<(String, Option<DistantStatic>)>,
    entry: (String, DistantStatic),
)
    ensures
        gave(seq![next] + later, entry) <==> next == (entry.0, Some(entry.1)) || gave(later, entry),
{
    let all = seq![next] + later;
    let wanted = (entry.0, Some(entry.1));
    if next == wanted {
        assert(all[0] == wanted);
    }
    if later.contains(wanted) {
        let k = choose|k: int| 0 <= k < later.len() && later[k] == wanted;
        assert(all[k + 1] == wanted);
    }
    if all.contains(wanted) {
        let k = choose|k: int| 0 <= k < all.len() && all[k] == wanted;
        if k > 0 {
            assert(later[k - 1] == wanted);
        }
    }
}

} // verus!
