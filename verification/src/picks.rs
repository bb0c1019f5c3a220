//! Positions in lists and places in tables that a condition picks, in order.

use vstd::prelude::*;

verus! {

/// The list holds exactly the positions below the end that the condition picks, in order.
pub open spec fn picks(list: Seq<int>, end: int, condition: spec_fn(int) -> bool) -> bool {
    &&& forall|i: int, j: int| 0 <= i < j < list.len() ==> #[trigger] list[i] < #[trigger] list[j]
    &&& forall|k: int| #[trigger] list.contains(k) <==> 0 <= k < end && condition(k)
}

/// The list after one more position.
pub proof fn lemma_pick_next(list: Seq<int>, end: int, condition: spec_fn(int) -> bool)
    requires
        0 <= end,
        picks(list, end, condition),
    ensures
        condition(end) ==> picks(list.push(end), end + 1, condition),
        !condition(end) ==> picks(list, end + 1, condition),
{
    let longer = list.push(end);
    assert forall|k: int| #[trigger] longer.contains(k) <==> list.contains(k) || k == end by {
        if list.contains(k) {
            let i = choose|i: int| 0 <= i < list.len() && list[i] == k;
            assert(longer[i] == k);
        }
        assert(longer[list.len() as int] == end);
        if longer.contains(k) && k != end {
            let i = choose|i: int| 0 <= i < longer.len() && longer[i] == k;
            assert(list[i] == k);
        }
    }
    assert forall|i: int, j: int| 0 <= i < j < longer.len() implies #[trigger] longer[i]
        < #[trigger] longer[j] by {
        if j < list.len() {
            assert(longer[i] == list[i] && longer[j] == list[j]);
        } else {
            assert(longer[i] == list[i]);
            assert(list.contains(list[i]));
        }
    }
}

/// Place `t` of row `s` comes before place `te` of row `se`.
pub open spec fn comes_before(s: int, t: int, se: int, te: int) -> bool {
    s < se || s == se && t < te
}

/// The list holds exactly the places before an end that the condition picks, in order. `sizes` are
/// those of the rows.
pub open spec fn lists(
    picks: spec_fn(int, int) -> bool,
    sizes: Seq<nat>,
    se: int,
    te: int,
    list: Seq<(int, int)>,
) -> bool {
    &&& forall|i: int, j: int|
        0 <= i < j < list.len() ==> comes_before(
            (#[trigger] list[i]).0,
            list[i].1,
            (#[trigger] list[j]).0,
            list[j].1,
        )
    &&& forall|s: int, t: int| #[trigger]
        list.contains((s, t)) <==> 0 <= s < sizes.len() && 0 <= t < sizes[s] && comes_before(
            s,
            t,
            se,
            te,
        ) && picks(s, t)
}

/// The list after one more place of a row.
pub proof fn lemma_list_step(
    picks: spec_fn(int, int) -> bool,
    sizes: Seq<nat>,
    se: int,
    te: int,
    list: Seq<(int, int)>,
)
    requires
        lists(picks, sizes, se, te, list),
        0 <= se < sizes.len(),
        0 <= te < sizes[se],
    ensures
        picks(se, te) ==> lists(picks, sizes, se, te + 1, list.push((se, te))),
        !picks(se, te) ==> lists(picks, sizes, se, te + 1, list),
{
    let longer = list.push((se, te));
    assert forall|s: int, t: int| #[trigger]
        longer.contains((s, t)) <==> list.contains((s, t)) || (s, t) == (se, te) by {
        if list.contains((s, t)) {
            let i = choose|i: int| 0 <= i < list.len() && list[i] == (s, t);
            assert(longer[i] == (s, t));
        }
        assert(longer[list.len() as int] == (se, te));
        if longer.contains((s, t)) && (s, t) != (se, te) {
            let i = choose|i: int| 0 <= i < longer.len() && longer[i] == (s, t);
            assert(list[i] == (s, t));
        }
    }
    assert forall|i: int, j: int| 0 <= i < j < longer.len() implies comes_before(
        (#[trigger] longer[i]).0,
        longer[i].1,
        (#[trigger] longer[j]).0,
        longer[j].1,
    ) by {
        if j == list.len() {
            assert(list[i] == longer[i]);
            assert(list.contains((list[i].0, list[i].1)));
        } else {
            assert(list[i] == longer[i] && list[j] == longer[j]);
        }
    }
}

/// The list at the start of the next row.
pub proof fn lemma_list_next_row(
    picks: spec_fn(int, int) -> bool,
    sizes: Seq<nat>,
    se: int,
    te: int,
    list: Seq<(int, int)>,
)
    requires
        lists(picks, sizes, se, te, list),
        0 <= se < sizes.len(),
        te == sizes[se] || forall|t: int| te <= t < sizes[se] ==> !#[trigger] picks(se, t),
        0 <= te,
    ensures
        lists(picks, sizes, se + 1, 0, list),
{
}

/// Lists of one condition are the same.
pub proof fn lemma_lists_same(
    a: spec_fn(int, int) -> bool,
    b: spec_fn(int, int) -> bool,
    sizes: Seq<nat>,
    se: int,
    te: int,
    x: Seq<(int, int)>,
    y: Seq<(int, int)>,
)
    requires
        lists(a, sizes, se, te, x),
        lists(b, sizes, se, te, y),
        forall|s: int, t: int|
            0 <= s < sizes.len() && 0 <= t < sizes[s] ==> #[trigger] a(s, t) == b(s, t),
    ensures
        x == y,
    decreases x.len(),
{
    assert forall|s: int, t: int| #[trigger] x.contains((s, t)) <==> y.contains((s, t)) by {
        if 0 <= s < sizes.len() && 0 <= t < sizes[s] {
            assert(a(s, t) == b(s, t));
        }
    }
    lemma_ordered_lists_same(x, y);
}

proof fn lemma_ordered_lists_same(x: Seq<(int, int)>, y: Seq<(int, int)>)
    requires
        forall|i: int, j: int|
            0 <= i < j < x.len() ==> comes_before(
                (#[trigger] x[i]).0,
                x[i].1,
                (#[trigger] x[j]).0,
                x[j].1,
            ),
        forall|i: int, j: int|
            0 <= i < j < y.len() ==> comes_before(
                (#[trigger] y[i]).0,
                y[i].1,
                (#[trigger] y[j]).0,
                y[j].1,
            ),
        forall|s: int, t: int| #[trigger] x.contains((s, t)) <==> y.contains((s, t)),
    ensures
        x == y,
    decreases x.len(),
{
    if x.len() == 0 {
        if y.len() > 0 {
            assert(y[0] == (y[0].0, y[0].1));
            assert(y.contains((y[0].0, y[0].1)));
            assert(x.contains((y[0].0, y[0].1)));
        }
        assert(x =~= y);
    } else {
        let p = x.last();
        assert(x.contains((p.0, p.1)));
        assert(y.len() > 0);
        let q = y.last();
        assert(y.contains((q.0, q.1)));
        assert(x.contains((q.0, q.1)));
        let j = choose|j: int| 0 <= j < y.len() && y[j] == (p.0, p.1);
        let i = choose|i: int| 0 <= i < x.len() && x[i] == (q.0, q.1);
        if j < y.len() - 1 && i < x.len() - 1 {
            assert(comes_before(y[j].0, y[j].1, y[y.len() - 1].0, y[y.len() - 1].1));
            assert(comes_before(x[i].0, x[i].1, x[x.len() - 1].0, x[x.len() - 1].1));
        }
        assert(p == q);
        let a = x.drop_last();
        let b = y.drop_last();
        assert forall|s: int, t: int| #[trigger] a.contains((s, t)) <==> b.contains((s, t)) by {
            assert(x.contains((s, t)) <==> y.contains((s, t)));
            lemma_without_last(x, s, t);
            lemma_without_last(y, s, t);
        }
        lemma_ordered_lists_same(a, b);
        assert(x =~= a.push(p));
        assert(y =~= b.push(q));
    }
}

proof fn lemma_without_last(x: Seq<(int, int)>, s: int, t: int)
    requires
        x.len() > 0,
        forall|i: int, j: int|
            0 <= i < j < x.len() ==> comes_before(
                (#[trigger] x[i]).0,
                x[i].1,
                (#[trigger] x[j]).0,
                x[j].1,
            ),
    ensures
        x.drop_last().contains((s, t)) <==> x.contains((s, t)) && (s, t) != x.last(),
{
    let a = x.drop_last();
    if a.contains((s, t)) {
        let i = choose|i: int| 0 <= i < a.len() && a[i] == (s, t);
        assert(x[i] == (s, t));
        assert(comes_before(x[i].0, x[i].1, x[x.len() - 1].0, x[x.len() - 1].1));
    }
    if x.contains((s, t)) && (s, t) != x.last() {
        let i = choose|i: int| 0 <= i < x.len() && x[i] == (s, t);
        assert(a[i] == (s, t));
    }
}

} // verus!
