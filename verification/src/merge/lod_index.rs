//! Hash index from a static and an error level to a position.

use crate::pair_index::PairIndex;
use vstd::prelude::*;

verus! {

/// A request for the simplified geometry of a static: its key, and the error level.
pub type LodRequest = (Seq<char>, i32);

/// The level as a number; distinct levels have distinct ones.
pub open spec fn level_number(bucket: i32) -> u64 {
    (bucket + 0x8000_0000) as u64
}

fn level_number_of(bucket: i32) -> (r: u64)
    ensures
        r == level_number(bucket),
{
    (bucket as i64 + 0x8000_0000) as u64
}

/// Positions by static and error level.
pub struct LodIndex {
    pairs: PairIndex,
}

impl View for LodIndex {
    type V = Map<LodRequest, usize>;

    closed spec fn view(&self) -> Map<LodRequest, usize> {
        Map::new(
            |request: LodRequest| self.pairs@.dom().contains((request.0, level_number(request.1))),
            |request: LodRequest| self.pairs@[(request.0, level_number(request.1))],
        )
    }
}

impl LodIndex {
    pub closed spec fn wf(self) -> bool {
        self.pairs.wf()
    }

    /// An index of nothing.
    pub fn new() -> (r: Self)
        ensures
            r.wf(),
            r@.dom() == Set::<LodRequest>::empty(),
    {
        let r = LodIndex { pairs: PairIndex::new() };
        assert(r@.dom() =~= Set::<LodRequest>::empty());
        r
    }

    /// The position of a static at a level, if there is one.
    pub fn get(&self, static_key: &str, bucket: i32) -> (r: Option<usize>)
        requires
            self.wf(),
        ensures
            r is Some <==> self@.dom().contains((static_key@, bucket)),
            r is Some ==> r->0 == self@[(static_key@, bucket)],
    {
        self.pairs.get(static_key, level_number_of(bucket))
    }

    /// Sets the position of a static at a level.
    pub fn insert(&mut self, static_key: &String, bucket: i32, position: usize)
        requires
            old(self).wf(),
        ensures
            final(self).wf(),
            final(self)@ == old(self)@.insert((static_key@, bucket), position),
    {
        let ghost before = self@;
        self.pairs.insert(static_key, level_number_of(bucket), position);
        proof {
            let after = self@;
            let request = (static_key@, bucket);
            assert forall|other: LodRequest| #[trigger] after.dom().contains(other)
                <==> before.insert(request, position).dom().contains(other) by {
                if other.0 == static_key@ && other.1 != bucket {
                    assert(level_number(other.1) != level_number(bucket));
                }
            }
            assert forall|other: LodRequest| #[trigger] after.dom().contains(
                other,
            ) implies after[other] == before.insert(request, position)[other] by {
                if other.0 == static_key@ && other.1 != bucket {
                    assert(level_number(other.1) != level_number(bucket));
                }
            }
            assert(after =~= before.insert(request, position));
        }
    }
}

} // verus!
