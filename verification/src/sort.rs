//! Sorting by a total preorder.

use vstd::prelude::*;

verus! {

/// A type with one canonical sort order.
pub trait Ranked: Sized {
    /// `self` may stand before `other` in a sorted sequence.
    spec fn ranks_le(self, other: Self) -> bool;

    proof fn rank_total(a: Self, b: Self)
        ensures
            a.ranks_le(b) || b.ranks_le(a),
    ;

    proof fn rank_transitive(a: Self, b: Self, c: Self)
        requires
            a.ranks_le(b),
            b.ranks_le(c),
        ensures
            a.ranks_le(c),
    ;

    fn rank_le(&self, other: &Self) -> (r: bool)
        ensures
            r == self.ranks_le(*other),
    ;
}

/// Every element may stand before all later ones.
pub open spec fn ranked<T: Ranked>(s: Seq<T>) -> bool {
    forall|i: int, j: int| 0 <= i < j < s.len() ==> #[trigger] s[i].ranks_le(#[trigger] s[j])
}

/// Sorted, and no two elements share a rank.
pub open spec fn strictly_ranked<T: Ranked>(s: Seq<T>) -> bool {
    forall|i: int, j: int|
        0 <= i < j < s.len() ==> (#[trigger] s[i]).ranks_le(#[trigger] s[j]) && !s[j].ranks_le(
            s[i],
        )
}

/// No two elements share a rank.
pub open spec fn distinct_ranks<T: Ranked>(s: Seq<T>) -> bool {
    forall|i: int, j: int|
        0 <= i < s.len() && 0 <= j < s.len() && i != j ==> !((#[trigger] s[i]).ranks_le(
            #[trigger] s[j],
        ) && s[j].ranks_le(s[i]))
}

pub proof fn lemma_insert_multiset<T>(s: Seq<T>, pos: int, x: T)
    requires
        0 <= pos <= s.len(),
    ensures
        s.insert(pos, x).to_multiset() == s.to_multiset().insert(x),
{
    broadcast use vstd::seq_lib::group_to_multiset_ensures;

    let t = s.insert(pos, x);
    assert(t.remove(pos) =~= s);
    assert(t.remove(pos).to_multiset() == t.to_multiset().remove(t[pos]));
    assert(t.contains(t[pos]));
    assert(t.to_multiset().count(x) > 0);
    assert(t.to_multiset() =~= s.to_multiset().insert(x));
}

/// Two sequences with the same multiset hold the same elements, the same number of times.
pub proof fn lemma_same_multiset<T>(a: Seq<T>, b: Seq<T>)
    requires
        a.to_multiset() == b.to_multiset(),
    ensures
        a.len() == b.len(),
        forall|x: T| #[trigger] a.contains(x) <==> b.contains(x),
{
    broadcast use vstd::seq_lib::group_to_multiset_ensures;

    assert(a.len() == a.to_multiset().len());
    assert(b.len() == b.to_multiset().len());
    assert forall|x: T| #[trigger] a.contains(x) <==> b.contains(x) by {
        assert(a.contains(x) <==> a.to_multiset().count(x) > 0);
        assert(b.contains(x) <==> b.to_multiset().count(x) > 0);
    }
}

/// Rearranging a sequence without duplicates introduces none.
pub proof fn lemma_same_multiset_distinct<T>(a: Seq<T>, b: Seq<T>)
    requires
        a.to_multiset() == b.to_multiset(),
        a.no_duplicates(),
    ensures
        b.no_duplicates(),
{
    broadcast use vstd::seq_lib::group_to_multiset_ensures;

    a.lemma_multiset_has_no_duplicates();
    assert forall|x: T| b.to_multiset().contains(x) implies b.to_multiset().count(x) == 1 by {
        assert(a.to_multiset().contains(x));
    }
    b.lemma_multiset_has_no_duplicates_conv();
}

/// A strictly sorted sequence is determined by the set of its elements.
pub proof fn lemma_strictly_ranked_unique<T: Ranked>(a: Seq<T>, b: Seq<T>)
    requires
        strictly_ranked(a),
        strictly_ranked(b),
        forall|x: T| #[trigger] a.contains(x) <==> b.contains(x),
    ensures
        a == b,
    decreases a.len(),
{
    if a.len() == 0 {
        if b.len() > 0 {
            assert(b.contains(b[0]));
            assert(a.contains(b[0]));
        }
        assert(a =~= b);
    } else {
        assert(a.contains(a.last()));
        assert(b.contains(a.last()));
        assert(b.contains(b.last()));
        assert(a.contains(b.last()));
        let k = choose|k: int| 0 <= k < b.len() && b[k] == a.last();
        let m = choose|m: int| 0 <= m < a.len() && a[m] == b.last();
        if k < b.len() - 1 {
            assert(!b.last().ranks_le(b[k]));
            if m < a.len() - 1 {
                assert(a[m].ranks_le(a.last()));
            }
            assert(false);
        }
        assert(a.last() == b.last());
        let a1 = a.drop_last();
        let b1 = b.drop_last();
        assert forall|x: T| #[trigger] a1.contains(x) <==> b1.contains(x) by {
            if a1.contains(x) {
                let i = choose|i: int| 0 <= i < a1.len() && a1[i] == x;
                assert(a.contains(a[i]));
                assert(b.contains(x));
                let j = choose|j: int| 0 <= j < b.len() && b[j] == x;
                if j == b.len() - 1 {
                    assert(!a.last().ranks_le(a[i]));
                    assert(a[i].ranks_le(a.last()));
                    assert(false);
                }
                assert(b1[j] == x);
            }
            if b1.contains(x) {
                let i = choose|i: int| 0 <= i < b1.len() && b1[i] == x;
                assert(b.contains(b[i]));
                assert(a.contains(x));
                let j = choose|j: int| 0 <= j < a.len() && a[j] == x;
                if j == a.len() - 1 {
                    assert(!b.last().ranks_le(b[i]));
                    assert(b[i].ranks_le(b.last()));
                    assert(false);
                }
                assert(a1[j] == x);
            }
        }
        lemma_strictly_ranked_unique(a1, b1);
        assert(a =~= a1.push(a.last()));
        assert(b =~= b1.push(b.last()));
    }
}

/// Sorting a sequence whose ranks are distinct gives a strictly sorted one.
pub proof fn lemma_ranked_strict<T: Ranked>(src: Seq<T>, out: Seq<T>)
    requires
        src.to_multiset() == out.to_multiset(),
        distinct_ranks(src),
        ranked(out),
    ensures
        strictly_ranked(out),
{
    broadcast use vstd::seq_lib::group_to_multiset_ensures;

    lemma_same_multiset(src, out);
    assert forall|i: int, j: int| 0 <= i < src.len() && 0 <= j < src.len() && i != j implies src[i]
        != src[j] by {
        T::rank_total(src[i], src[i]);
    }
    assert(src.no_duplicates());
    src.lemma_multiset_has_no_duplicates();
    assert forall|x: T| out.to_multiset().contains(x) implies out.to_multiset().count(x) == 1 by {
        assert(src.to_multiset().contains(x));
    }
    out.lemma_multiset_has_no_duplicates_conv();
    assert forall|i: int, j: int| 0 <= i < j < out.len() implies (#[trigger] out[i]).ranks_le(
        #[trigger] out[j],
    ) && !out[j].ranks_le(out[i]) by {
        assert(out.contains(out[i]) && out.contains(out[j]));
        assert(src.contains(out[i]) && src.contains(out[j]));
        let p = choose|p: int| 0 <= p < src.len() && src[p] == out[i];
        let q = choose|q: int| 0 <= q < src.len() && src[q] == out[j];
        assert(out[i] != out[j]);
        assert(p != q);
    }
}

/// Position of the first element of `sorted` that `x` may stand before.
fn insertion_point<T: Ranked>(sorted: &Vec<T>, x: &T) -> (pos: usize)
    requires
        ranked(sorted@),
    ensures
        pos <= sorted.len(),
        forall|i: int| 0 <= i < pos ==> (#[trigger] sorted@[i]).ranks_le(*x),
        forall|i: int| pos <= i < sorted.len() ==> x.ranks_le(#[trigger] sorted@[i]),
{
    let mut lo: usize = 0;
    let mut hi: usize = sorted.len();
    while lo < hi
        invariant
            lo <= hi <= sorted.len(),
            ranked(sorted@),
            forall|i: int| 0 <= i < lo ==> (#[trigger] sorted@[i]).ranks_le(*x),
            forall|i: int| hi <= i < sorted.len() ==> x.ranks_le(#[trigger] sorted@[i]),
        decreases hi - lo,
    {
        let mid: usize = lo + (hi - lo) / 2;
        if x.rank_le(&sorted[mid]) {
            proof {
                assert forall|i: int| mid <= i < sorted.len() implies x.ranks_le(
                    #[trigger] sorted@[i],
                ) by {
                    if i > mid {
                        T::rank_transitive(*x, sorted@[mid as int], sorted@[i]);
                    }
                }
            }
            hi = mid;
        } else {
            proof {
                T::rank_total(*x, sorted@[mid as int]);
                assert forall|i: int| 0 <= i < mid + 1 implies (#[trigger] sorted@[i]).ranks_le(
                    *x,
                ) by {
                    if i < mid {
                        T::rank_transitive(sorted@[i], sorted@[mid as int], *x);
                    }
                }
            }
            lo = mid + 1;
        }
    }
    lo
}

/// Sorts `items` by rank.
pub fn sort_ranked<T: Ranked>(items: Vec<T>) -> (out: Vec<T>)
    ensures
        ranked(out@),
        out@.to_multiset() == items@.to_multiset(),
        out@.len() == items@.len(),
        forall|x: T| #[trigger] out@.contains(x) <==> items@.contains(x),
{
    let mut rest: Vec<T> = items;
    let mut out: Vec<T> = Vec::new();
    proof {
        broadcast use vstd::seq_lib::group_to_multiset_ensures;

        assert(out@.to_multiset() =~= vstd::multiset::Multiset::<T>::empty());
        assert(rest@.to_multiset().add(out@.to_multiset()) =~= items@.to_multiset());
    }
    while rest.len() > 0
        invariant
            ranked(out@),
            rest@.to_multiset().add(out@.to_multiset()) == items@.to_multiset(),
        decreases rest.len(),
    {
        let ghost before = rest@;
        let ghost sorted_before = out@;
        let x = rest.pop().unwrap();
        let pos: usize = insertion_point(&out, &x);
        out.insert(pos, x);
        proof {
            broadcast use vstd::seq_lib::group_to_multiset_ensures;

            assert(before =~= rest@.push(x));
            lemma_insert_multiset(sorted_before, pos as int, x);
            assert(rest@.to_multiset().add(out@.to_multiset()) =~= items@.to_multiset());
        }
    }
    proof {
        broadcast use vstd::seq_lib::group_to_multiset_ensures;

        assert(rest@.to_multiset() =~= vstd::multiset::Multiset::<T>::empty());
        assert(out@.to_multiset() =~= items@.to_multiset());
        lemma_same_multiset(out@, items@);
    }
    out
}

} // verus!
