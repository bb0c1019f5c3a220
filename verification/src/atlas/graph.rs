//! Minimum-cost bipartite matching of prepared groups to prior slots.

use crate::atlas::error::AtlasError;
use crate::atlas::flow::{
    edge_links, group_links, is_over, lemma_one_end, lemma_one_listing, lemma_reaches_itself,
    lemma_reaches_on, lemma_reaches_step, linked, lists_flow, reaches, sends_to, slot_links, started,
    stepped, with_unit, FlowPhase, FlowState,
};
use crate::sort::{
    distinct_ranks, lemma_ranked_strict, lemma_same_multiset, lemma_strictly_ranked_unique, ranked,
    sort_ranked, Ranked,
};
use std::collections::VecDeque;
use vstd::prelude::*;

verus! {

/// A directed arc of the flow network; `reverse` is the index of its counterpart.
#[derive(Clone, Copy)]
pub struct FlowEdge {
    pub to: usize,
    pub reverse: usize,
    pub capacity: u8,
    pub cost: i128,
}

/// A compatible pair of group and slot, with the number of keys it retains.
#[derive(Clone, Copy, Debug, PartialEq, Eq, Structural)]
pub struct MatchEdge {
    pub group: usize,
    pub slot: usize,
    pub weight: usize,
}

/// Candidate edges sort by slot, then by group.
impl Ranked for MatchEdge {
    open spec fn ranks_le(self, other: Self) -> bool {
        if self.slot != other.slot {
            self.slot < other.slot
        } else {
            self.group <= other.group
        }
    }

    proof fn rank_total(a: Self, b: Self) {
    }

    proof fn rank_transitive(a: Self, b: Self, c: Self) {
    }

    fn rank_le(&self, other: &Self) -> (r: bool) {
        if self.slot != other.slot {
            self.slot < other.slot
        } else {
            self.group <= other.group
        }
    }
}

/// Matched pairs sort by group, then by slot.
impl Ranked for (usize, usize) {
    open spec fn ranks_le(self, other: Self) -> bool {
        if self.0 != other.0 {
            self.0 < other.0
        } else {
            self.1 <= other.1
        }
    }

    proof fn rank_total(a: Self, b: Self) {
    }

    proof fn rank_transitive(a: Self, b: Self, c: Self) {
    }

    fn rank_le(&self, other: &Self) -> (r: bool) {
        if self.0 != other.0 {
            self.0 < other.0
        } else {
            self.1 <= other.1
        }
    }
}

// ---------------------------------------------------------------------------------------------
// What a matching is
// ---------------------------------------------------------------------------------------------

/// `chosen` takes edges of `edges` only, and no group or slot twice.
pub open spec fn is_matching(edges: Seq<MatchEdge>, chosen: Seq<MatchEdge>) -> bool {
    &&& forall|i: int| 0 <= i < chosen.len() ==> edges.contains(#[trigger] chosen[i])
    &&& forall|i: int, j: int|
        0 <= i < j < chosen.len() ==> (#[trigger] chosen[i]).group != (#[trigger] chosen[j]).group
            && chosen[i].slot != chosen[j].slot
}

/// Upper bound of the tie-break contribution of one edge, clamped to the word size.
pub open spec fn tie_bound(group_count: usize, slot_count: usize) -> int {
    let product = slot_count * (group_count + 1);
    let clamped = if product > usize::MAX {
        usize::MAX as int
    } else {
        product
    };
    if clamped + group_count > usize::MAX {
        usize::MAX as int
    } else {
        clamped + group_count
    }
}

/// The largest number of pairs a matching can have, at least one.
pub open spec fn pair_bound(group_count: usize, slot_count: usize) -> int {
    let least = if group_count < slot_count {
        group_count
    } else {
        slot_count
    };
    if least < 1 {
        1
    } else {
        least as int
    }
}

/// Factor by which one retained key outweighs every tie-break.
pub open spec fn weight_scale(group_count: usize, slot_count: usize) -> int {
    (tie_bound(group_count, slot_count) + 1) * pair_bound(group_count, slot_count) + 1
}

/// Tie-break of an edge: slots and groups early in their order are preferred.
pub open spec fn edge_tie(group_count: usize, edge: MatchEdge) -> int {
    edge.slot * (group_count + 1) + edge.group
}

/// Cost of taking an edge: retained keys count negatively, scaled above any tie-break.
pub open spec fn edge_cost(group_count: usize, slot_count: usize, edge: MatchEdge) -> int {
    edge_tie(group_count, edge) - edge.weight * weight_scale(group_count, slot_count)
}

/// Summed cost of the chosen edges.
pub open spec fn matching_cost(
    group_count: usize,
    slot_count: usize,
    chosen: Seq<MatchEdge>,
) -> int
    decreases chosen.len(),
{
    if chosen.len() == 0 {
        0
    } else {
        matching_cost(group_count, slot_count, chosen.drop_last()) + edge_cost(
            group_count,
            slot_count,
            chosen.last(),
        )
    }
}

/// `chosen` is a matching; none costs less, and one with fewer pairs costs more.
pub open spec fn is_cheapest_matching(
    group_count: usize,
    slot_count: usize,
    edges: Seq<MatchEdge>,
    chosen: Seq<MatchEdge>,
) -> bool {
    &&& is_matching(edges, chosen)
    &&& forall|other: Seq<MatchEdge>| #[trigger]
        is_matching(edges, other) ==> {
            &&& matching_cost(group_count, slot_count, chosen) <= matching_cost(
                group_count,
                slot_count,
                other,
            )
            &&& other.len() < chosen.len() ==> matching_cost(group_count, slot_count, chosen)
                < matching_cost(group_count, slot_count, other)
        }
}

/// Some chosen edge joins the group and the slot of `pair`.
pub open spec fn takes_pair(chosen: Seq<MatchEdge>, pair: (usize, usize)) -> bool {
    exists|k: int|
        0 <= k < chosen.len() && (#[trigger] chosen[k]).group == pair.0 && chosen[k].slot == pair.1
}

/// `pairs` lists the pairs of `chosen` by ascending group.
pub open spec fn lists_pairs(chosen: Seq<MatchEdge>, pairs: Seq<(usize, usize)>) -> bool {
    &&& pairs.len() == chosen.len()
    &&& forall|i: int, j: int|
        0 <= i < j < pairs.len() ==> (#[trigger] pairs[i]).0 < (#[trigger] pairs[j]).0
    &&& forall|i: int| 0 <= i < pairs.len() ==> takes_pair(chosen, #[trigger] pairs[i])
    &&& forall|k: int|
        0 <= k < chosen.len() ==> pairs.contains(
            ((#[trigger] chosen[k]).group, chosen[k].slot),
        )
}

/// Number of retained keys over the chosen edges.
pub open spec fn matching_weight(chosen: Seq<MatchEdge>) -> int
    decreases chosen.len(),
{
    if chosen.len() == 0 {
        0
    } else {
        matching_weight(chosen.drop_last()) + chosen.last().weight
    }
}

// ---------------------------------------------------------------------------------------------
// Sums
// ---------------------------------------------------------------------------------------------

spec fn total(s: Seq<int>) -> int
    decreases s.len(),
{
    if s.len() == 0 {
        0
    } else {
        total(s.drop_last()) + s.last()
    }
}

proof fn lemma_total_update(s: Seq<int>, i: int, x: int)
    requires
        0 <= i < s.len(),
    ensures
        total(s.update(i, x)) == total(s) - s[i] + x,
    decreases s.len(),
{
    if i == s.len() - 1 {
        assert(s.update(i, x).drop_last() =~= s.drop_last());
    } else {
        assert(s.update(i, x).drop_last() =~= s.drop_last().update(i, x));
        lemma_total_update(s.drop_last(), i, x);
    }
}

proof fn lemma_total_le(a: Seq<int>, b: Seq<int>)
    requires
        a.len() == b.len(),
        forall|i: int| 0 <= i < a.len() ==> a[i] <= b[i],
    ensures
        total(a) <= total(b),
    decreases a.len(),
{
    if a.len() > 0 {
        lemma_total_le(a.drop_last(), b.drop_last());
    }
}

proof fn lemma_total_nonneg(s: Seq<int>)
    requires
        forall|i: int| 0 <= i < s.len() ==> s[i] >= 0,
    ensures
        total(s) >= 0,
    decreases s.len(),
{
    if s.len() > 0 {
        lemma_total_nonneg(s.drop_last());
    }
}

proof fn lemma_total_zero(n: nat)
    ensures
        total(Seq::new(n, |k: int| 0int)) == 0,
    decreases n,
{
    if n > 0 {
        assert(Seq::new(n, |k: int| 0int).drop_last() =~= Seq::new((n - 1) as nat, |k: int| 0int));
        lemma_total_zero((n - 1) as nat);
    }
}

spec fn sum_at(ids: Seq<int>, h: Seq<int>) -> int
    decreases ids.len(),
{
    if ids.len() == 0 {
        0
    } else {
        sum_at(ids.drop_last(), h) + h[ids.last()]
    }
}

spec fn masked(ids: Seq<int>, h: Seq<int>) -> Seq<int> {
    Seq::new(h.len(), |k: int| if ids.contains(k) { h[k] } else { 0 })
}

proof fn lemma_sum_at_masked(ids: Seq<int>, h: Seq<int>)
    requires
        forall|i: int| 0 <= i < ids.len() ==> 0 <= #[trigger] ids[i] < h.len(),
        ids.no_duplicates(),
    ensures
        sum_at(ids, h) == total(masked(ids, h)),
    decreases ids.len(),
{
    if ids.len() == 0 {
        assert(masked(ids, h) =~= Seq::new(h.len(), |k: int| 0int));
        lemma_total_zero(h.len());
    } else {
        let rest = ids.drop_last();
        let last = ids.last();
        lemma_sum_at_masked(rest, h);
        assert(!rest.contains(last)) by {
            if rest.contains(last) {
                let i = choose|i: int| 0 <= i < rest.len() && rest[i] == last;
                assert(ids[i] == ids[ids.len() - 1]);
            }
        }
        assert forall|k: int| ids.contains(k) <==> (rest.contains(k) || k == last) by {
            if ids.contains(k) {
                let i = choose|i: int| 0 <= i < ids.len() && ids[i] == k;
                if i < rest.len() {
                    assert(rest[i] == k);
                }
            }
            if rest.contains(k) {
                let i = choose|i: int| 0 <= i < rest.len() && rest[i] == k;
                assert(ids[i] == k);
            }
            assert(ids[ids.len() - 1] == last);
        }
        assert(masked(ids, h) =~= masked(rest, h).update(last, h[last]));
        lemma_total_update(masked(rest, h), last, h[last]);
    }
}

proof fn lemma_sum_at_shift(ids: Seq<int>, h: Seq<int>, d: int, shifted: Seq<int>)
    requires
        forall|i: int| 0 <= i < ids.len() ==> 0 <= #[trigger] ids[i] < h.len(),
        shifted.len() == h.len(),
        forall|k: int| 0 <= k < h.len() ==> #[trigger] shifted[k] == h[k] - d,
    ensures
        sum_at(ids, h) == sum_at(ids, shifted) + d * ids.len(),
    decreases ids.len(),
{
    if ids.len() > 0 {
        lemma_sum_at_shift(ids.drop_last(), h, d, shifted);
        assert(ids[ids.len() - 1] == ids.last());
        assert(d * ids.len() == d * (ids.len() - 1) + d) by (nonlinear_arith);
    } else {
        assert(d * 0 == 0);
    }
}

// ---------------------------------------------------------------------------------------------
// The network
// ---------------------------------------------------------------------------------------------

spec fn arc(g: Seq<Vec<FlowEdge>>, u: int, i: int) -> FlowEdge {
    g[u]@[i]
}

spec fn has_arc(g: Seq<Vec<FlowEdge>>, u: int, i: int) -> bool {
    0 <= u < g.len() && 0 <= i < g[u]@.len()
}

/// Every arc has a counterpart with the opposite cost that holds the rest of one unit of capacity.
spec fn paired(g: Seq<Vec<FlowEdge>>) -> bool {
    forall|u: int, i: int|
        #![trigger arc(g, u, i)]
        has_arc(g, u, i) ==> {
            let e = arc(g, u, i);
            let r = arc(g, e.to as int, e.reverse as int);
            &&& e.to != u
            &&& has_arc(g, e.to as int, e.reverse as int)
            &&& r.to == u
            &&& r.reverse == i
            &&& r.cost == -e.cost
            &&& e.capacity + r.capacity == 1
        }
}

spec fn group_row(g: Seq<Vec<FlowEdge>>, groups: int, slots: int, done: int, k: int) -> bool {
    let row = g[1 + k]@;
    if k < done {
        &&& row.len() >= 1
        &&& arc(g, 1 + k, 0).to == 0
        &&& arc(g, 1 + k, 0).reverse == k
        &&& forall|i: int|
            1 <= i < row.len() ==> 1 + groups <= (#[trigger] arc(g, 1 + k, i)).to < 1 + groups
                + slots && arc(g, 1 + k, i).reverse >= 1
    } else {
        row.len() == 0
    }
}

spec fn slot_row(g: Seq<Vec<FlowEdge>>, groups: int, slots: int, done: int, s: int) -> bool {
    let row = g[1 + groups + s]@;
    if s < done {
        &&& row.len() >= 1
        &&& arc(g, 1 + groups + s, 0).to == 1 + groups + slots
        &&& arc(g, 1 + groups + s, 0).reverse == s
        &&& arc(g, 1 + groups + s, 0).cost == 0
        &&& forall|i: int|
            1 <= i < row.len() ==> 1 <= (#[trigger] arc(g, 1 + groups + s, i)).to < 1 + groups
                && arc(g, 1 + groups + s, i).reverse >= 1
    } else {
        row.len() == 0
    }
}

/// The network's nodes are the source, the groups, the slots, and the sink, linked in that order.
spec fn shaped(
    g: Seq<Vec<FlowEdge>>,
    groups: int,
    slots: int,
    groups_done: int,
    slots_done: int,
) -> bool {
    let sink = 1 + groups + slots;
    &&& g.len() == groups + slots + 2
    &&& g[0]@.len() == groups_done
    &&& forall|k: int|
        0 <= k < groups_done ==> (#[trigger] arc(g, 0, k)).to == 1 + k && arc(g, 0, k).reverse == 0
            && arc(g, 0, k).cost == 0
    &&& forall|k: int| 0 <= k < groups ==> #[trigger] group_row(g, groups, slots, groups_done, k)
    &&& forall|s: int| 0 <= s < slots ==> #[trigger] slot_row(g, groups, slots, slots_done, s)
    &&& g[sink]@.len() == slots_done
    &&& forall|s: int|
        0 <= s < slots_done ==> (#[trigger] arc(g, sink, s)).to == 1 + groups + s && arc(
            g,
            sink,
            s,
        ).reverse == 0
}

/// Nothing flows yet.
spec fn unused(g: Seq<Vec<FlowEdge>>, groups: int, slots: int) -> bool {
    &&& forall|k: int| 0 <= k < g[0]@.len() ==> (#[trigger] arc(g, 0, k)).capacity == 1
    &&& forall|k: int, i: int|
        0 <= k < groups && 1 <= i < g[1 + k]@.len() ==> (#[trigger] arc(g, 1 + k, i)).capacity == 1
    &&& forall|s: int|
        0 <= s < slots && g[1 + groups + s]@.len() > 0 ==> (#[trigger] arc(
            g,
            1 + groups + s,
            0,
        )).capacity == 1
}

/// The rows agree in everything but capacities.
spec fn same_arcs(a: Seq<Vec<FlowEdge>>, b: Seq<Vec<FlowEdge>>) -> bool {
    &&& a.len() == b.len()
    &&& forall|u: int| 0 <= u < a.len() ==> (#[trigger] a[u])@.len() == b[u]@.len()
    &&& forall|u: int, i: int|
        #![trigger arc(a, u, i)]
        #![trigger arc(b, u, i)]
        has_arc(a, u, i) ==> {
            &&& arc(a, u, i).to == arc(b, u, i).to
            &&& arc(a, u, i).reverse == arc(b, u, i).reverse
            &&& arc(a, u, i).cost == arc(b, u, i).cost
        }
}

spec fn group_clear_but(g: Seq<Vec<FlowEdge>>, k: int, skip: int) -> bool {
    forall|i: int|
        1 <= i < g[1 + k]@.len() && i != skip ==> (#[trigger] arc(g, 1 + k, i)).capacity == 1
}

/// Exactly the arc `at` of group `k` is in use, `skip` left aside.
spec fn group_uses_but(g: Seq<Vec<FlowEdge>>, k: int, at: int, skip: int) -> bool {
    &&& 1 <= at < g[1 + k]@.len()
    &&& at != skip
    &&& arc(g, 1 + k, at).capacity == 0
    &&& forall|i: int|
        1 <= i < g[1 + k]@.len() && i != skip && i != at ==> (#[trigger] arc(
            g,
            1 + k,
            i,
        )).capacity == 1
}

/// What enters group `k` leaves it, `skip` left aside.
spec fn group_balanced_but(g: Seq<Vec<FlowEdge>>, k: int, skip: int) -> bool {
    if arc(g, 0, k).capacity == 1 {
        group_clear_but(g, k, skip)
    } else {
        exists|at: int| #[trigger] group_uses_but(g, k, at, skip)
    }
}

spec fn slot_clear(g: Seq<Vec<FlowEdge>>, groups: int, s: int) -> bool {
    forall|i: int|
        1 <= i < g[1 + groups + s]@.len() ==> (#[trigger] arc(g, 1 + groups + s, i)).capacity == 0
}

spec fn slot_fed(g: Seq<Vec<FlowEdge>>, groups: int, s: int, at: int) -> bool {
    &&& 1 <= at < g[1 + groups + s]@.len()
    &&& arc(g, 1 + groups + s, at).capacity == 1
    &&& forall|i: int|
        1 <= i < g[1 + groups + s]@.len() && i != at ==> (#[trigger] arc(
            g,
            1 + groups + s,
            i,
        )).capacity == 0
}

spec fn slot_balanced(g: Seq<Vec<FlowEdge>>, groups: int, s: int) -> bool {
    if arc(g, 1 + groups + s, 0).capacity == 1 {
        slot_clear(g, groups, s)
    } else {
        exists|at: int| #[trigger] slot_fed(g, groups, s, at)
    }
}

spec fn balanced(g: Seq<Vec<FlowEdge>>, groups: int, slots: int) -> bool {
    &&& forall|k: int| 0 <= k < groups ==> #[trigger] group_balanced_but(g, k, -1)
    &&& forall|s: int| 0 <= s < slots ==> #[trigger] slot_balanced(g, groups, s)
}

/// `pot` certifies that no arc with capacity leads downhill, and arcs in use are level.
spec fn feasible(g: Seq<Vec<FlowEdge>>, groups: int, pot: Seq<int>) -> bool {
    &&& pot.len() == g.len()
    &&& pot[0] == 0
    &&& forall|u: int, i: int|
        #![trigger arc(g, u, i)]
        has_arc(g, u, i) && arc(g, u, i).capacity == 1 ==> pot[arc(g, u, i).to as int] <= pot[u]
            + arc(g, u, i).cost
    &&& forall|k: int, i: int|
        0 <= k < groups && 1 <= i < g[1 + k]@.len() && (#[trigger] arc(g, 1 + k, i)).capacity == 0
            ==> pot[arc(g, 1 + k, i).to as int] == pot[1 + k] + arc(g, 1 + k, i).cost
}

spec fn source_capacity(g: Seq<Vec<FlowEdge>>) -> int {
    total(Seq::new(g[0]@.len(), |k: int| arc(g, 0, k).capacity as int))
}

/// Adds an arc and its counterpart, and returns the index of the arc.
fn add_flow_edge(
    graph: &mut Vec<Vec<FlowEdge>>,
    from: usize,
    to: usize,
    capacity: u8,
    cost: i128,
) -> (forward: usize)
    requires
        from < old(graph).len(),
        to < old(graph).len(),
        from != to,
        cost > i128::MIN,
    ensures
        forward == old(graph)@[from as int]@.len(),
        final(graph)@.len() == old(graph)@.len(),
        final(graph)@[from as int]@ == old(graph)@[from as int]@.push(
            (FlowEdge { to, reverse: old(graph)@[to as int]@.len() as usize, capacity, cost }),
        ),
        final(graph)@[to as int]@ == old(graph)@[to as int]@.push(
            (FlowEdge { to: from, reverse: forward, capacity: 0, cost: (-cost) as i128 }),
        ),
        forall|u: int|
            0 <= u < old(graph)@.len() && u != from && u != to ==> final(graph)@[u] == old(
                graph,
            )@[u],
{
    let forward: usize = graph[from].len();
    let reverse: usize = graph[to].len();
    graph[from].push(FlowEdge { to, reverse, capacity, cost });
    graph[to].push(FlowEdge { to: from, reverse: forward, capacity: 0, cost: -cost });
    forward
}

/// Sends one unit along the arc `edge` of `from`.
fn saturate(graph: &mut Vec<Vec<FlowEdge>>, from: usize, edge: usize)
    requires
        has_arc(old(graph)@, from as int, edge as int),
        paired(old(graph)@),
    ensures
        same_arcs(old(graph)@, final(graph)@),
        ({
            let e = arc(old(graph)@, from as int, edge as int);
            forall|u: int, i: int| #![trigger arc(final(graph)@, u, i)]
                has_arc(old(graph)@, u, i) ==> arc(final(graph)@, u, i).capacity == (if u == from
                    && i == edge {
                    0
                } else if u == e.to && i == e.reverse {
                    1
                } else {
                    arc(old(graph)@, u, i).capacity
                })
        }),
{
    let node: usize = graph[from][edge].to;
    let reverse: usize = graph[from][edge].reverse;
    proof {
        let e = arc(graph@, from as int, edge as int);
        assert(has_arc(graph@, e.to as int, e.reverse as int));
    }
    graph[from][edge].capacity = 0;
    graph[node][reverse].capacity = 1;
}


// ---------------------------------------------------------------------------------------------
// Shortest paths
// ---------------------------------------------------------------------------------------------

/// The arcs of the network as plain values.
pub open spec fn rows_of(g: Seq<Vec<FlowEdge>>) -> Seq<Seq<FlowEdge>> {
    Seq::new(g.len(), |u: int| g[u]@)
}

spec fn flow_at(
    rows: Seq<Seq<FlowEdge>>,
    dist: Seq<i128>,
    pred: Seq<Option<(usize, usize)>>,
    queued: Seq<bool>,
    queue: Seq<usize>,
    phase: FlowPhase,
) -> FlowState {
    FlowState { rows, dist, pred, queued, queue, phase }
}

/// The search from the source comes to its end with these distances and predecessors.
spec fn searched(
    rows: Seq<Seq<FlowEdge>>,
    sink: int,
    dist: Seq<i128>,
    pred: Seq<Option<(usize, usize)>>,
    queued: Seq<bool>,
) -> bool {
    reaches(
        started(rows),
        sink,
        flow_at(rows, dist, pred, queued, Seq::empty(), FlowPhase::Seek),
    )
}

/// The search ends in a path cost that cannot be represented.
pub open spec fn overflows(start: FlowState, sink: int) -> bool {
    exists|end: FlowState| #[trigger] reaches(start, sink, end) && end.phase is Overflow
}

proof fn lemma_flow_step(start: FlowState, sink: int, a: FlowState, b: FlowState)
    requires
        reaches(start, sink, a),
        stepped(a, sink).rows == b.rows,
        stepped(a, sink).dist == b.dist,
        stepped(a, sink).pred == b.pred,
        stepped(a, sink).queued == b.queued,
        stepped(a, sink).queue == b.queue,
        stepped(a, sink).phase == b.phase,
    ensures
        reaches(start, sink, b),
{
    lemma_reaches_step(start, sink, a);
    assert(stepped(a, sink) == b);
}

/// The next node is taken from the queue.
proof fn lemma_step_take(start: FlowState, sink: int, a: FlowState, b: FlowState)
    requires
        reaches(start, sink, a),
        a.phase is Seek,
        a.queue.len() > 0,
        b.rows == a.rows,
        b.dist == a.dist,
        b.pred == a.pred,
        b.queued == a.queued.update(a.queue[0] as int, false),
        b.queue == a.queue.skip(1),
        b.phase == FlowPhase::Scan(a.queue[0], 0),
    ensures
        reaches(start, sink, b),
{
    reveal(stepped);
    lemma_flow_step(start, sink, a, b);
}

/// An arc of the node is followed.
proof fn lemma_step_scan(start: FlowState, sink: int, a: FlowState, b: FlowState)
    requires
        reaches(start, sink, a),
        a.phase is Scan,
        b.rows == a.rows,
        ({
            let node = a.phase->Scan_0;
            let e = a.phase->Scan_1;
            let arc = a.rows[node as int][e];
            let next = a.dist[node as int] + arc.cost;
            let unchanged = b.dist == a.dist && b.pred == a.pred && b.queued == a.queued && b.queue
                == a.queue;
            if e >= a.rows[node as int].len() {
                unchanged && b.phase == FlowPhase::Seek
            } else if arc.capacity != 0 && (next < i128::MIN || next >= i128::MAX) {
                unchanged && b.phase == FlowPhase::Overflow
            } else {
                &&& b.phase == FlowPhase::Scan(node, e + 1)
                &&& if arc.capacity != 0 && next < a.dist[arc.to as int] {
                    &&& b.dist == a.dist.update(arc.to as int, next as i128)
                    &&& b.pred == a.pred.update(arc.to as int, Some((node, e as usize)))
                    &&& b.queued == a.queued.update(arc.to as int, true)
                    &&& b.queue == if a.queued[arc.to as int] {
                        a.queue
                    } else {
                        a.queue.push(arc.to)
                    }
                } else {
                    unchanged
                }
            }
        }),
    ensures
        reaches(start, sink, b),
{
    reveal(stepped);
    lemma_flow_step(start, sink, a, b);
}

/// Distances from the source, and the arc by which each node was reached last.
struct ShortestPaths {
    distance: Vec<i128>,
    predecessor: Vec<Option<(usize, usize)>>,
    stamp: Ghost<Seq<int>>,
}

spec fn reduced(dist: Seq<i128>, pot: Seq<int>, v: int) -> int {
    dist[v] - pot[v]
}

/// Node `u` comes before `v` in the order that predecessors descend.
spec fn lower(dist: Seq<i128>, pot: Seq<int>, stamp: Seq<int>, u: int, v: int) -> bool {
    ||| reduced(dist, pot, u) < reduced(dist, pot, v)
    ||| (reduced(dist, pot, u) == reduced(dist, pot, v) && stamp[u] < stamp[v])
}

/// The walk by which a node got its distance visits no node twice.
spec fn walk_ok(
    dist: Seq<i128>,
    pot: Seq<int>,
    bound: int,
    walk: Seq<(int, int)>,
    v: int,
) -> bool {
    &&& walk.len() >= 1
    &&& walk.last() == (v, reduced(dist, pot, v))
    &&& forall|i: int|
        0 <= i < walk.len() ==> 0 <= (#[trigger] walk[i]).0 < dist.len() && walk[i].1 >= reduced(
            dist,
            pot,
            walk[i].0,
        ) && walk[i].1 <= reduced(dist, pot, v)
    &&& forall|i: int, j: int|
        0 <= i < j < walk.len() ==> (#[trigger] walk[i]).0 != (#[trigger] walk[j]).0
    &&& dist[v] <= (walk.len() - 1) * bound
}

/// The arcs with capacity that were followed so far form a tree below the source.
spec fn grown(
    g: Seq<Vec<FlowEdge>>,
    pot: Seq<int>,
    dist: Seq<i128>,
    pred: Seq<Option<(usize, usize)>>,
    stamp: Seq<int>,
    clock: int,
) -> bool {
    &&& dist.len() == g.len()
    &&& pred.len() == g.len()
    &&& stamp.len() == g.len()
    &&& dist[0] == 0
    &&& pred[0] is None
    &&& stamp[0] == 0
    &&& forall|v: int| 0 <= v < g.len() ==> #[trigger] stamp[v] <= clock
    &&& forall|v: int|
        0 < v < g.len() ==> (#[trigger] dist[v] != i128::MAX <==> pred[v] is Some) && (dist[v]
            != i128::MAX ==> stamp[v] > 0)
    &&& forall|v: int|
        0 <= v < g.len() && #[trigger] dist[v] != i128::MAX ==> reduced(dist, pot, v) >= 0
    &&& forall|v: int|
        0 <= v < g.len() && (#[trigger] pred[v]) is Some ==> {
            let (u, e) = pred[v]->0;
            &&& has_arc(g, u as int, e as int)
            &&& arc(g, u as int, e as int).to == v
            &&& arc(g, u as int, e as int).capacity == 1
            &&& dist[u as int] != i128::MAX
            &&& dist[v] >= dist[u as int] + arc(g, u as int, e as int).cost
            &&& lower(dist, pot, stamp, u as int, v)
        }
}

/// No arc with capacity from `u` leads to a shorter path.
spec fn relaxed(g: Seq<Vec<FlowEdge>>, dist: Seq<i128>, u: int, upto: int) -> bool {
    forall|i: int|
        0 <= i < upto && (#[trigger] arc(g, u, i)).capacity == 1 ==> {
            &&& dist[arc(g, u, i).to as int] != i128::MAX
            &&& dist[arc(g, u, i).to as int] <= dist[u] + arc(g, u, i).cost
        }
}

/// A finished search: the tree's arcs are tight and nothing is left to relax.
spec fn settled(g: Seq<Vec<FlowEdge>>, pot: Seq<int>, paths: ShortestPaths) -> bool {
    let dist = paths.distance@;
    &&& exists|clock: int|
        #[trigger] grown(g, pot, dist, paths.predecessor@, paths.stamp@, clock)
    &&& forall|u: int|
        0 <= u < g.len() && #[trigger] dist[u] != i128::MAX ==> relaxed(
            g,
            dist,
            u,
            g[u]@.len() as int,
        )
    &&& forall|v: int|
        0 <= v < g.len() && (#[trigger] paths.predecessor@[v]) is Some ==> {
            let (u, e) = paths.predecessor@[v]->0;
            dist[v] == dist[u as int] + arc(g, u as int, e as int).cost
        }
}

spec fn heights(dist: Seq<i128>) -> Seq<int> {
    Seq::new(dist.len(), |v: int| dist[v] - i128::MIN)
}

spec fn small_costs(g: Seq<Vec<FlowEdge>>, bound: int) -> bool {
    forall|u: int, i: int|
        #![trigger arc(g, u, i)]
        has_arc(g, u, i) ==> arc(g, u, i).cost <= bound
}

proof fn lemma_walk_short(dist: Seq<i128>, pot: Seq<int>, bound: int, walk: Seq<(int, int)>, v: int)
    requires
        walk_ok(dist, pot, bound, walk, v),
    ensures
        walk.len() <= dist.len(),
{
    let nodes = walk.map_values(|p: (int, int)| p.0);
    assert(nodes.no_duplicates()) by {
        assert forall|i: int, j: int| 0 <= i < nodes.len() && 0 <= j < nodes.len() && i != j implies
            nodes[i] != nodes[j] by {
            if i < j {
                assert(walk[i].0 != walk[j].0);
            } else {
                assert(walk[j].0 != walk[i].0);
            }
        }
    }
    let range = vstd::set_lib::set_int_range(0, dist.len() as int);
    vstd::set_lib::lemma_int_range(0, dist.len() as int);
    nodes.unique_seq_to_set();
    assert(nodes.to_set().subset_of(range)) by {
        assert forall|x: int| nodes.to_set().contains(x) implies range.contains(x) by {
            let i = choose|i: int| 0 <= i < nodes.len() && nodes[i] == x;
            assert(walk[i].0 == x);
        }
    }
    vstd::set_lib::lemma_len_subset(nodes.to_set(), range);
}

/// Following an arc with capacity to a shorter distance keeps the tree.
proof fn lemma_relax(
    g: Seq<Vec<FlowEdge>>,
    groups: int,
    pot: Seq<int>,
    dist: Seq<i128>,
    pred: Seq<Option<(usize, usize)>>,
    stamp: Seq<int>,
    clock: int,
    u: usize,
    e: usize,
    next: i128,
)
    requires
        feasible(g, groups, pot),
        grown(g, pot, dist, pred, stamp, clock),
        clock >= 0,
        has_arc(g, u as int, e as int),
        paired(g),
        arc(g, u as int, e as int).capacity == 1,
        dist[u as int] != i128::MAX,
        next == dist[u as int] + arc(g, u as int, e as int).cost,
        next < dist[arc(g, u as int, e as int).to as int],
    ensures
        arc(g, u as int, e as int).to != 0,
        ({
            let v = arc(g, u as int, e as int).to as int;
            grown(
                g,
                pot,
                dist.update(v, next),
                pred.update(v, Some((u, e))),
                stamp.update(v, clock + 1),
                clock + 1,
            )
        }),
{
    let v = arc(g, u as int, e as int).to as int;
    let dist2 = dist.update(v, next);
    let pred2 = pred.update(v, Some((u, e)));
    let stamp2 = stamp.update(v, clock + 1);
    assert(pot[v] <= pot[u as int] + arc(g, u as int, e as int).cost);
    assert(reduced(dist, pot, u as int) >= 0);
    assert(next - pot[v] >= reduced(dist, pot, u as int));
    assert(v != u);
    assert(v != 0);
    assert forall|w: int| 0 <= w < g.len() && (#[trigger] pred2[w]) is Some implies ({
        let (a, b) = pred2[w]->0;
        &&& has_arc(g, a as int, b as int)
        &&& arc(g, a as int, b as int).to == w
        &&& arc(g, a as int, b as int).capacity == 1
        &&& dist2[a as int] != i128::MAX
        &&& dist2[w] >= dist2[a as int] + arc(g, a as int, b as int).cost
        &&& lower(dist2, pot, stamp2, a as int, w)
    }) by {
        if w != v {
            let (a, b) = pred[w]->0;
            assert(pred2[w] == pred[w]);
            if a == v {
                assert(reduced(dist2, pot, v) < reduced(dist, pot, v));
            }
        } else {
            assert(stamp[u as int] <= clock);
        }
    }
    assert forall|w: int| 0 <= w < g.len() implies #[trigger] stamp2[w] <= clock + 1 by {
        assert(stamp[w] <= clock);
    }
    assert forall|w: int| 0 < w < g.len() implies (#[trigger] dist2[w] != i128::MAX <==> pred2[w] is Some)
        && (dist2[w] != i128::MAX ==> stamp2[w] > 0) by {
        assert(dist[w] != i128::MAX <==> pred[w] is Some);
    }
    assert forall|w: int| 0 <= w < g.len() && #[trigger] dist2[w] != i128::MAX implies reduced(
        dist2,
        pot,
        w,
    ) >= 0 by {
        assert(w != v ==> dist[w] == dist2[w]);
    }
}

/// Relaxation keeps every recorded walk simple.
proof fn lemma_relax_walks(
    g: Seq<Vec<FlowEdge>>,
    groups: int,
    pot: Seq<int>,
    dist: Seq<i128>,
    bound: int,
    walks: Seq<Seq<(int, int)>>,
    u: int,
    e: int,
    next: i128,
)
    requires
        feasible(g, groups, pot),
        dist.len() == g.len(),
        walks.len() == g.len(),
        forall|w: int|
            0 <= w < g.len() && #[trigger] dist[w] != i128::MAX ==> walk_ok(
                dist,
                pot,
                bound,
                walks[w],
                w,
            ),
        has_arc(g, u, e),
        paired(g),
        arc(g, u, e).capacity == 1,
        arc(g, u, e).cost <= bound,
        dist[u] != i128::MAX,
        next == dist[u] + arc(g, u, e).cost,
        next < dist[arc(g, u, e).to as int],
    ensures
        ({
            let v = arc(g, u, e).to as int;
            let dist2 = dist.update(v, next);
            let walks2 = walks.update(v, walks[u].push((v, next - pot[v])));
            forall|w: int|
                0 <= w < g.len() && #[trigger] dist2[w] != i128::MAX ==> walk_ok(
                    dist2,
                    pot,
                    bound,
                    walks2[w],
                    w,
                )
        }),
{
    let v = arc(g, u, e).to as int;
    let dist2 = dist.update(v, next);
    let walks2 = walks.update(v, walks[u].push((v, next - pot[v])));
    assert(pot[v] <= pot[u] + arc(g, u, e).cost);
    assert forall|w: int| 0 <= w < g.len() && #[trigger] dist2[w] != i128::MAX implies walk_ok(
        dist2,
        pot,
        bound,
        walks2[w],
        w,
    ) by {
        let base = if w == v { u } else { w };
        assert(dist[base] != i128::MAX);
        let walk = walks[base];
        assert(walk_ok(dist, pot, bound, walk, base));
        assert forall|i: int| 0 <= i < walk.len() implies (#[trigger] walk[i]).1 >= reduced(
            dist2,
            pot,
            walk[i].0,
        ) by {
            assert(reduced(dist2, pot, walk[i].0) <= reduced(dist, pot, walk[i].0));
        }
        if w == v {
            let longer = walk.push((v, next - pot[v]));
            assert(reduced(dist2, pot, v) >= reduced(dist, pot, u));
            assert forall|i: int| 0 <= i < walk.len() implies (#[trigger] walk[i]).0 != v by {
                assert(walk[i].1 <= reduced(dist, pot, u));
                assert(walk[i].1 >= reduced(dist, pot, walk[i].0));
            }
            assert(longer.last() == (v, reduced(dist2, pot, v)));
            assert forall|i: int| 0 <= i < longer.len() implies 0 <= (#[trigger] longer[i]).0
                < dist2.len() && longer[i].1 >= reduced(dist2, pot, longer[i].0) && longer[i].1
                <= reduced(dist2, pot, v) by {
                if i < walk.len() {
                    assert(longer[i] == walk[i]);
                }
            }
            assert forall|i: int, j: int| 0 <= i < j < longer.len() implies (#[trigger] longer[i]).0
                != (#[trigger] longer[j]).0 by {
                assert(longer[i] == walk[i]);
                if j < walk.len() {
                    assert(longer[j] == walk[j]);
                }
            }
            assert(walk.len() * bound == (walk.len() - 1) * bound + bound) by (nonlinear_arith);
        } else {
            assert(reduced(dist2, pot, w) == reduced(dist, pot, w));
        }
    }
}

/// Queue-based label correction from the source.
fn shortest_paths(
    graph: &Vec<Vec<FlowEdge>>,
    Ghost(groups): Ghost<int>,
    Ghost(pot): Ghost<Seq<int>>,
    Ghost(bound): Ghost<int>,
    Ghost(sink): Ghost<int>,
) -> (r: Result<ShortestPaths, AtlasError>)
    requires
        graph.len() >= 2,
        paired(graph@),
        feasible(graph@, groups, pot),
        forall|v: int| 0 <= v < pot.len() ==> #[trigger] pot[v] >= i128::MIN,
        bound >= 0,
    ensures
        r matches Ok(paths) ==> settled(graph@, pot, paths),
        r matches Ok(paths) ==> exists|queued: Seq<bool>| #[trigger]
            searched(
                rows_of(graph@),
                sink,
                paths.distance@,
                paths.predecessor@,
                queued,
            ),
        r is Err ==> overflows(started(rows_of(graph@)), sink),
        r matches Err(e) ==> e == AtlasError::MatchingPathOverflow && (small_costs(graph@, bound)
            ==> graph.len() * bound >= i128::MAX),
{
    let n: usize = graph.len();
    let mut distance: Vec<i128> = Vec::new();
    let mut predecessor: Vec<Option<(usize, usize)>> = Vec::new();
    let mut queued: Vec<bool> = Vec::new();
    let mut filled: usize = 0;
    while filled < n
        invariant
            filled <= n,
            distance@.len() == filled,
            predecessor@.len() == filled,
            queued@.len() == filled,
            forall|v: int| 0 <= v < filled ==> #[trigger] distance@[v] == i128::MAX,
            forall|v: int| 0 <= v < filled ==> (#[trigger] predecessor@[v]) is None,
            forall|v: int| 0 <= v < filled ==> !#[trigger] queued@[v],
        decreases n - filled,
    {
        distance.push(i128::MAX);
        predecessor.push(None);
        queued.push(false);
        filled = filled + 1;
    }
    let mut queue: VecDeque<usize> = VecDeque::new();
    queue.push_back(0);
    distance[0] = 0;
    queued[0] = true;
    let ghost mut stamp: Seq<int> = Seq::new(n as nat, |v: int| 0int);
    let ghost mut clock: int = 0;
    let ghost mut walks: Seq<Seq<(int, int)>> = Seq::new(n as nat, |v: int| seq![(0int, 0int)]);
    let ghost rows = rows_of(graph@);
    let ghost start = started(rows);
    proof {
        assert(queue@[0] == 0);
        assert(start.dist =~= distance@);
        assert(start.pred =~= predecessor@);
        assert(start.queued =~= queued@);
        assert(start.queue =~= queue@);
        lemma_reaches_itself(start, sink);
        assert(grown(graph@, pot, distance@, predecessor@, stamp, clock));
        assert forall|w: int| 0 <= w < n && #[trigger] distance@[w] != i128::MAX implies walk_ok(
            distance@,
            pot,
            bound,
            walks[w],
            w,
        ) by {
            assert(w == 0);
            assert(0 * bound == 0);
        }
    }
    while queue.len() > 0
        invariant
            n == graph.len(),
            n >= 2,
            rows == rows_of(graph@),
            start == started(rows),
            reaches(
                start,
                sink,
                flow_at(rows, distance@, predecessor@, queued@, queue@, FlowPhase::Seek),
            ),
            paired(graph@),
            feasible(graph@, groups, pot),
            forall|v: int| 0 <= v < pot.len() ==> #[trigger] pot[v] >= i128::MIN,
            bound >= 0,
            clock >= 0,
            grown(graph@, pot, distance@, predecessor@, stamp, clock),
            queued@.len() == n,
            walks.len() == n,
            small_costs(graph@, bound) ==> forall|w: int|
                0 <= w < n && #[trigger] distance@[w] != i128::MAX ==> walk_ok(
                    distance@,
                    pot,
                    bound,
                    walks[w],
                    w,
                ),
            forall|i: int|
                0 <= i < queue@.len() ==> #[trigger] queue@[i] < n
                    && distance@[queue@[i] as int] != i128::MAX,
            forall|v: int| 0 <= v < n && #[trigger] queued@[v] ==> queue@.contains(v as usize),
            forall|u: int|
                0 <= u < n && #[trigger] distance@[u] != i128::MAX && !queued@[u] ==> relaxed(
                    graph@,
                    distance@,
                    u,
                    graph@[u]@.len() as int,
                ),
        decreases total(heights(distance@)), queue@.len(),
    {
        let ghost queue_before = queue@;
        let ghost queued_before = queued@;
        let ghost total_before = total(heights(distance@));
        let node: usize = queue.pop_front().unwrap();
        assert(node == queue_before[0]);
        assert(queue@ =~= queue_before.subrange(1, queue_before.len() as int));
        queued[node] = false;
        proof {
            lemma_step_take(
                start,
                sink,
                flow_at(
                    rows,
                    distance@,
                    predecessor@,
                    queued_before,
                    queue_before,
                    FlowPhase::Seek,
                ),
                flow_at(rows, distance@, predecessor@, queued@, queue@, FlowPhase::Scan(node, 0)),
            );
            lemma_total_nonneg(heights(distance@));
            assert forall|v: int| 0 <= v < n && #[trigger] queued@[v] implies
                queue@.contains(v as usize) by {
                assert(queue_before.contains(v as usize));
                let i = choose|i: int| 0 <= i < queue_before.len() && queue_before[i] == v as usize;
                assert(i != 0);
                assert(queue@[i - 1] == v as usize);
            }
            assert forall|i: int| 0 <= i < queue@.len() implies #[trigger] queue@[i] < n
                && distance@[queue@[i] as int] != i128::MAX by {
                assert(queue@[i] == queue_before[i + 1]);
            }
        }
        let mut edge_index: usize = 0;
        while edge_index < graph[node].len()
            invariant
                n == graph.len(),
                n >= 2,
                node < n,
                edge_index <= graph@[node as int]@.len(),
                rows == rows_of(graph@),
                start == started(rows),
                reaches(
                    start,
                    sink,
                    flow_at(
                        rows,
                        distance@,
                        predecessor@,
                        queued@,
                        queue@,
                        FlowPhase::Scan(node, edge_index as int),
                    ),
                ),
                paired(graph@),
                feasible(graph@, groups, pot),
                forall|v: int| 0 <= v < pot.len() ==> #[trigger] pot[v] >= i128::MIN,
                bound >= 0,
                clock >= 0,
                grown(graph@, pot, distance@, predecessor@, stamp, clock),
                queued@.len() == n,
                walks.len() == n,
                small_costs(graph@, bound) ==> forall|w: int|
                    0 <= w < n && #[trigger] distance@[w] != i128::MAX ==> walk_ok(
                        distance@,
                        pot,
                        bound,
                        walks[w],
                        w,
                    ),
                distance@[node as int] != i128::MAX,
                !queued@[node as int],
                forall|i: int|
                    0 <= i < queue@.len() ==> #[trigger] queue@[i] < n
                        && distance@[queue@[i] as int] != i128::MAX,
                forall|v: int| 0 <= v < n && #[trigger] queued@[v] ==> queue@.contains(v as usize),
                forall|u: int|
                    0 <= u < n && u != node && #[trigger] distance@[u] != i128::MAX && !queued@[u]
                        ==> relaxed(graph@, distance@, u, graph@[u]@.len() as int),
                relaxed(graph@, distance@, node as int, edge_index as int),
                total(heights(distance@)) < total_before || (total(heights(distance@))
                    == total_before && queue@.len() < queue_before.len()),
                total(heights(distance@)) >= 0,
            decreases graph@[node as int]@.len() - edge_index,
        {
            let edge = graph[node][edge_index];
            let ghost here = node as int;
            let ghost stood = flow_at(
                rows,
                distance@,
                predecessor@,
                queued@,
                queue@,
                FlowPhase::Scan(node, edge_index as int),
            );
            assert(edge == arc(graph@, here, edge_index as int));
            assert(edge == rows[here][edge_index as int]);
            assert(has_arc(graph@, here, edge_index as int));
            let to: usize = edge.to;
            assert(has_arc(graph@, to as int, edge.reverse as int));
            if edge.capacity != 0 {
                assert(edge.capacity == 1);
                let step: Option<i128> = distance[node].checked_add(edge.cost);
                if step.is_none() || step == Some(i128::MAX) {
                    // The largest value is the mark of an unreached node.
                    proof {
                        assert(pot[to as int] <= pot[here] + edge.cost);
                        assert(reduced(distance@, pot, here) >= 0);
                        assert(distance@[here] + edge.cost >= pot[to as int]);
                        if small_costs(graph@, bound) {
                            let walk = walks[here];
                            assert(walk_ok(distance@, pot, bound, walk, here));
                            lemma_walk_short(distance@, pot, bound, walk, here);
                            assert((walk.len() - 1) * bound <= (n - 1) * bound) by (nonlinear_arith)
                                requires
                                    walk.len() <= n,
                                    bound >= 0,
                            ;
                            assert(n * bound == (n - 1) * bound + bound) by (nonlinear_arith);
                        }
                    }
                    proof {
                        let end = FlowState { phase: FlowPhase::Overflow, ..stood };
                        lemma_step_scan(start, sink, stood, end);
                        assert(reaches(start, sink, end) && end.phase is Overflow);
                    }
                    return Err(AtlasError::MatchingPathOverflow);
                }
                let next: i128 = step.unwrap();
                if next < distance[to] {
                    let ghost dist_before = distance@;
                    proof {
                        lemma_relax(
                            graph@,
                            groups,
                            pot,
                            distance@,
                            predecessor@,
                            stamp,
                            clock,
                            node,
                            edge_index,
                            next,
                        );
                        if small_costs(graph@, bound) {
                            lemma_relax_walks(
                                graph@,
                                groups,
                                pot,
                                distance@,
                                bound,
                                walks,
                                here,
                                edge_index as int,
                                next,
                            );
                        }
                        walks = walks.update(to as int, walks[here].push((to as int, next - pot[to as int])));
                        stamp = stamp.update(to as int, clock + 1);
                        clock = clock + 1;
                        assert(heights(dist_before.update(to as int, next)) =~= heights(
                            dist_before,
                        ).update(to as int, next - i128::MIN));
                        lemma_total_update(heights(dist_before), to as int, next - i128::MIN);
                    }
                    distance[to] = next;
                    predecessor[to] = Some((node, edge_index));
                    proof {
                        lemma_total_nonneg(heights(distance@));
                        assert forall|u: int|
                            0 <= u < n && u != to && (u == here || (distance@[u] != i128::MAX
                                && !queued@[u])) implies relaxed(
                            graph@,
                            distance@,
                            u,
                            if u == here { edge_index as int } else { graph@[u]@.len() as int },
                        ) by {
                            assert(dist_before[u] == distance@[u]);
                            assert(relaxed(
                                graph@,
                                dist_before,
                                u,
                                if u == here { edge_index as int } else { graph@[u]@.len() as int },
                            ));
                        }
                    }
                    if !queued[to] {
                        let ghost q0 = queue@;
                        queue.push_back(to);
                        queued[to] = true;
                        proof {
                            assert(queue@[q0.len() as int] == to);
                            assert forall|v: int| 0 <= v < n && #[trigger] queued@[v] implies
                                queue@.contains(v as usize) by {
                                if v != to {
                                    assert(q0.contains(v as usize));
                                    let i = choose|i: int| 0 <= i < q0.len() && q0[i] == v as usize;
                                    assert(queue@[i] == v as usize);
                                }
                            }
                        }
                    }
                    proof {
                        assert(relaxed(graph@, distance@, here, edge_index + 1));
                        assert forall|u: int|
                            0 <= u < n && u != node && #[trigger] distance@[u] != i128::MAX
                                && !queued@[u] implies relaxed(
                            graph@,
                            distance@,
                            u,
                            graph@[u]@.len() as int,
                        ) by {
                            assert(u != to);
                        }
                    }
                }
            }
            proof {
                let stands = flow_at(
                    rows,
                    distance@,
                    predecessor@,
                    queued@,
                    queue@,
                    FlowPhase::Scan(node, edge_index + 1),
                );
                assert(stands.queued =~= if stands.dist == stood.dist {
                    stood.queued
                } else {
                    stood.queued.update(to as int, true)
                });
                lemma_step_scan(start, sink, stood, stands);
            }
            edge_index = edge_index + 1;
        }
        proof {
            lemma_step_scan(
                start,
                sink,
                flow_at(
                    rows,
                    distance@,
                    predecessor@,
                    queued@,
                    queue@,
                    FlowPhase::Scan(node, edge_index as int),
                ),
                flow_at(rows, distance@, predecessor@, queued@, queue@, FlowPhase::Seek),
            );
        }
    }
    let paths = ShortestPaths { distance, predecessor, stamp: Ghost(stamp) };
    proof {
        assert(queue@ =~= Seq::empty());
        assert(searched(rows, sink, paths.distance@, paths.predecessor@, queued@));
        let dist = paths.distance@;
        assert(grown(graph@, pot, dist, paths.predecessor@, paths.stamp@, clock));
        assert forall|u: int| 0 <= u < n && #[trigger] dist[u] != i128::MAX implies relaxed(
            graph@,
            dist,
            u,
            graph@[u]@.len() as int,
        ) by {
            if queued@[u] {
                assert(queue@.contains(u as usize));
            }
        }
        assert forall|v: int| 0 <= v < n && (#[trigger] paths.predecessor@[v]) is Some implies ({
            let (u, e) = paths.predecessor@[v]->0;
            dist[v] == dist[u as int] + arc(graph@, u as int, e as int).cost
        }) by {
            let (u, e) = paths.predecessor@[v]->0;
            assert(relaxed(graph@, dist, u as int, graph@[u as int]@.len() as int));
        }
    }
    Ok(paths)
}


// ---------------------------------------------------------------------------------------------
// Augmentation
// ---------------------------------------------------------------------------------------------

proof fn lemma_total_ge(s: Seq<int>, i: int)
    requires
        0 <= i < s.len(),
        forall|k: int| 0 <= k < s.len() ==> s[k] >= 0,
    ensures
        s[i] <= total(s),
    decreases s.len(),
{
    lemma_total_nonneg(s.drop_last());
    if i < s.len() - 1 {
        lemma_total_ge(s.drop_last(), i);
    }
}

/// A settled search yields potentials that certify the present flow.
proof fn lemma_new_potential(
    g: Seq<Vec<FlowEdge>>,
    groups: int,
    slots: int,
    pot: Seq<int>,
    paths: ShortestPaths,
) -> (next: Seq<int>)
    requires
        groups >= 0,
        slots >= 0,
        shaped(g, groups, slots, groups, slots),
        paired(g),
        balanced(g, groups, slots),
        feasible(g, groups, pot),
        forall|v: int| 0 <= v < pot.len() ==> #[trigger] pot[v] >= i128::MIN,
        settled(g, pot, paths),
    ensures
        feasible(g, groups, next),
        forall|v: int| 0 <= v < next.len() ==> #[trigger] next[v] >= i128::MIN,
        forall|v: int|
            0 <= v < g.len() && #[trigger] paths.distance@[v] != i128::MAX ==> next[v]
                == paths.distance@[v],
        paths.distance@[1 + groups + slots] == i128::MAX ==> next[1 + groups + slots] >= 0,
{
    let dist = paths.distance@;
    let pred = paths.predecessor@;
    let clock = choose|clock: int| #[trigger] grown(g, pot, dist, pred, paths.stamp@, clock);
    let sink = 1 + groups + slots;
    let gaps = Seq::new(
        g.len(),
        |v: int| if dist[v] != i128::MAX { reduced(dist, pot, v) } else { 0 },
    );
    assert forall|v: int| 0 <= v < gaps.len() implies gaps[v] >= 0 by {
        if dist[v] != i128::MAX {
            assert(reduced(dist, pot, v) >= 0);
        }
    }
    lemma_total_nonneg(gaps);
    let lift = total(gaps) + if pot[sink] < 0 { -pot[sink] } else { 0 };
    let next = Seq::new(
        g.len(),
        |v: int| if dist[v] != i128::MAX { dist[v] as int } else { pot[v] + lift },
    );
    assert forall|v: int| 0 <= v < next.len() implies #[trigger] next[v] >= i128::MIN by {
        assert(pot[v] >= i128::MIN);
    }
    assert forall|u: int, i: int|
        #![trigger arc(g, u, i)]
        has_arc(g, u, i) && arc(g, u, i).capacity == 1 implies next[arc(g, u, i).to as int]
        <= next[u] + arc(g, u, i).cost by {
        let v = arc(g, u, i).to as int;
        assert(has_arc(g, v, arc(g, u, i).reverse as int));
        assert(pot[v] <= pot[u] + arc(g, u, i).cost);
        if dist[u] != i128::MAX {
            assert(relaxed(g, dist, u, g[u]@.len() as int));
        } else if dist[v] != i128::MAX {
            lemma_total_ge(gaps, v);
            assert(gaps[v] == reduced(dist, pot, v));
        }
    }
    assert forall|k: int, i: int|
        0 <= k < groups && 1 <= i < g[1 + k]@.len() && (#[trigger] arc(g, 1 + k, i)).capacity
            == 0 implies next[arc(g, 1 + k, i).to as int] == next[1 + k] + arc(
        g,
        1 + k,
        i,
    ).cost by {
        assert(has_arc(g, 1 + k, i));
        let f = arc(g, 1 + k, i);
        let s = f.to as int;
        let back = arc(g, s, f.reverse as int);
        assert(has_arc(g, s, f.reverse as int));
        assert(back.capacity == 1 && back.to == 1 + k);
        assert(group_balanced_but(g, k, -1));
        assert(group_row(g, groups, slots, groups, k));
        assert(arc(g, 0, k).capacity != 1);
        assert(pot[s] == pot[1 + k] + f.cost);
        if dist[s] != i128::MAX {
            assert(relaxed(g, dist, s, g[s]@.len() as int));
            assert(dist[1 + k] != i128::MAX);
        }
        if dist[1 + k] != i128::MAX {
            let at = choose|at: int| #[trigger] group_uses_but(g, k, at, -1);
            assert(at == i);
            assert(pred[1 + k] is Some);
            let (u, e) = pred[1 + k]->0;
            let a = arc(g, u as int, e as int);
            assert(has_arc(g, u as int, e as int));
            let r = a.reverse as int;
            assert(has_arc(g, 1 + k, r));
            assert(arc(g, 1 + k, r).capacity == 0);
            if r == 0 {
                assert(has_arc(g, 0, k));
                assert(arc(g, 1 + k, 0).to == 0 && arc(g, 1 + k, 0).reverse == k);
                assert(arc(g, 0, k).capacity == 1);
                assert(false);
            }
            assert(r == i);
        }
    }
    assert(next[0] == 0);
    next
}

/// State of an augmentation that has been undone from the sink down to `node`.
spec fn midway(
    g: Seq<Vec<FlowEdge>>,
    groups: int,
    slots: int,
    dist: Seq<i128>,
    pot: Seq<int>,
    stamp: Seq<int>,
    node: int,
) -> bool {
    if node == 0 || node == 1 + groups + slots {
        balanced(g, groups, slots)
    } else if node <= groups {
        &&& forall|k: int| 0 <= k < groups && k != node - 1 ==> #[trigger] group_balanced_but(g, k, -1)
        &&& forall|s: int| 0 <= s < slots ==> #[trigger] slot_balanced(g, groups, s)
        &&& exists|skip: int|
            {
                &&& 1 <= skip < g[node]@.len()
                &&& (#[trigger] arc(g, node, skip)).capacity == 0
                &&& lower(dist, pot, stamp, node, arc(g, node, skip).to as int)
                &&& group_balanced_but(g, node - 1, skip)
            }
    } else {
        let here = node - 1 - groups;
        &&& forall|k: int| 0 <= k < groups ==> #[trigger] group_balanced_but(g, k, -1)
        &&& forall|s: int| 0 <= s < slots && s != here ==> #[trigger] slot_balanced(g, groups, s)
        &&& arc(g, node, 0).capacity == 0
        &&& slot_clear(g, groups, here)
    }
}

/// `b` is `a` with one unit sent along the arc `e` of `u`.
spec fn sent(a: Seq<Vec<FlowEdge>>, b: Seq<Vec<FlowEdge>>, u: int, e: int) -> bool {
    &&& same_arcs(a, b)
    &&& forall|w: int, i: int| #![trigger arc(b, w, i)]
        has_arc(a, w, i) ==> arc(b, w, i).capacity == (if w == u && i == e {
            0
        } else if w == arc(a, u, e).to && i == arc(a, u, e).reverse {
            1
        } else {
            arc(a, w, i).capacity
        })
}

proof fn lemma_group_kept(a: Seq<Vec<FlowEdge>>, b: Seq<Vec<FlowEdge>>, k: int, skip: int)
    requires
        group_balanced_but(a, k, skip),
        a.len() == b.len(),
        0 <= k < a.len() - 1,
        a[1 + k]@.len() == b[1 + k]@.len(),
        arc(a, 0, k).capacity == arc(b, 0, k).capacity,
        forall|i: int|
            1 <= i < a[1 + k]@.len() && i != skip ==> (#[trigger] arc(b, 1 + k, i)).capacity == arc(
                a,
                1 + k,
                i,
            ).capacity,
    ensures
        group_balanced_but(b, k, skip),
{
    if arc(a, 0, k).capacity != 1 {
        let at = choose|at: int| #[trigger] group_uses_but(a, k, at, skip);
        assert(arc(b, 1 + k, at).capacity == arc(a, 1 + k, at).capacity);
        assert(group_uses_but(b, k, at, skip));
    }
}

proof fn lemma_slot_kept(a: Seq<Vec<FlowEdge>>, b: Seq<Vec<FlowEdge>>, groups: int, s: int)
    requires
        slot_balanced(a, groups, s),
        a.len() == b.len(),
        0 <= 1 + groups + s < a.len(),
        a[1 + groups + s]@.len() == b[1 + groups + s]@.len(),
        a[1 + groups + s]@.len() >= 1,
        forall|i: int|
            0 <= i < a[1 + groups + s]@.len() ==> (#[trigger] arc(
                b,
                1 + groups + s,
                i,
            )).capacity == arc(a, 1 + groups + s, i).capacity,
    ensures
        slot_balanced(b, groups, s),
{
    assert(arc(b, 1 + groups + s, 0).capacity == arc(a, 1 + groups + s, 0).capacity);
    if arc(a, 1 + groups + s, 0).capacity != 1 {
        let at = choose|at: int| #[trigger] slot_fed(a, groups, s, at);
        assert(arc(b, 1 + groups + s, at).capacity == arc(a, 1 + groups + s, at).capacity);
        assert(slot_fed(b, groups, s, at));
    }
}

proof fn lemma_shape_kept(a: Seq<Vec<FlowEdge>>, b: Seq<Vec<FlowEdge>>, groups: int, slots: int)
    requires
        groups >= 0,
        slots >= 0,
        shaped(a, groups, slots, groups, slots),
        same_arcs(a, b),
    ensures
        shaped(b, groups, slots, groups, slots),
{
    let sink = 1 + groups + slots;
    assert(a[0]@.len() == b[0]@.len());
    assert(a[sink]@.len() == b[sink]@.len());
    assert forall|k: int| 0 <= k < groups implies (#[trigger] arc(b, 0, k)).to == 1 + k
        && arc(b, 0, k).reverse == 0 && arc(b, 0, k).cost == 0 by {
        assert(has_arc(a, 0, k));
        assert(arc(a, 0, k).to == 1 + k);
    }
    assert forall|k: int| 0 <= k < groups implies #[trigger] group_row(b, groups, slots, groups, k) by {
        assert(group_row(a, groups, slots, groups, k));
        assert(a[1 + k]@.len() == b[1 + k]@.len());
        assert(has_arc(a, 1 + k, 0));
        assert(arc(a, 1 + k, 0).to == arc(b, 1 + k, 0).to);
        assert forall|i: int| 1 <= i < b[1 + k]@.len() implies 1 + groups <= (#[trigger] arc(
            b,
            1 + k,
            i,
        )).to < 1 + groups + slots && arc(b, 1 + k, i).reverse >= 1 by {
            assert(has_arc(a, 1 + k, i));
            assert(arc(a, 1 + k, i).reverse >= 1);
        }
    }
    assert forall|s: int| 0 <= s < slots implies #[trigger] slot_row(b, groups, slots, slots, s) by {
        let row = 1 + groups + s;
        assert(slot_row(a, groups, slots, slots, s));
        assert(a[row]@.len() == b[row]@.len());
        assert(has_arc(a, row, 0));
        assert(arc(a, row, 0).to == arc(b, row, 0).to);
        assert forall|i: int| 1 <= i < b[row]@.len() implies 1 <= (#[trigger] arc(b, row, i)).to < 1
            + groups && arc(b, row, i).reverse >= 1 by {
            assert(has_arc(a, row, i));
            assert(arc(a, row, i).reverse >= 1);
        }
    }
    assert forall|s: int| 0 <= s < slots implies (#[trigger] arc(b, sink, s)).to == 1 + groups + s
        && arc(b, sink, s).reverse == 0 by {
        assert(has_arc(a, sink, s));
        assert(arc(a, sink, s).to == 1 + groups + s);
    }
}

proof fn lemma_pairs_kept(a: Seq<Vec<FlowEdge>>, b: Seq<Vec<FlowEdge>>, u: int, e: int)
    requires
        paired(a),
        has_arc(a, u, e),
        arc(a, u, e).capacity == 1,
        sent(a, b, u, e),
    ensures
        paired(b),
{
    let f = arc(a, u, e);
    assert(has_arc(a, f.to as int, f.reverse as int));
    assert forall|w: int, i: int|
        #![trigger arc(b, w, i)]
        has_arc(b, w, i) implies ({
        let x = arc(b, w, i);
        let r = arc(b, x.to as int, x.reverse as int);
        &&& x.to != w
        &&& has_arc(b, x.to as int, x.reverse as int)
        &&& r.to == w
        &&& r.reverse == i
        &&& r.cost == -x.cost
        &&& x.capacity + r.capacity == 1
    }) by {
        assert(a[w]@.len() == b[w]@.len());
        assert(has_arc(a, w, i));
        let x = arc(a, w, i);
        assert(has_arc(a, x.to as int, x.reverse as int));
        let r = arc(a, x.to as int, x.reverse as int);
        assert(r.to == w && r.reverse == i);
        assert(a[x.to as int]@.len() == b[x.to as int]@.len());
    }
}

proof fn lemma_feasible_kept(
    a: Seq<Vec<FlowEdge>>,
    b: Seq<Vec<FlowEdge>>,
    groups: int,
    pot: Seq<int>,
    u: int,
    e: int,
)
    requires
        paired(a),
        feasible(a, groups, pot),
        0 <= groups < a.len(),
        has_arc(a, u, e),
        arc(a, u, e).capacity == 1,
        pot[arc(a, u, e).to as int] == pot[u] + arc(a, u, e).cost,
        sent(a, b, u, e),
    ensures
        feasible(b, groups, pot),
{
    let f = arc(a, u, e);
    assert(has_arc(a, f.to as int, f.reverse as int));
    let back = arc(a, f.to as int, f.reverse as int);
    assert(back.to == u && back.cost == -f.cost);
    assert forall|w: int, i: int|
        #![trigger arc(b, w, i)]
        has_arc(b, w, i) && arc(b, w, i).capacity == 1 implies pot[arc(b, w, i).to as int] <= pot[w]
        + arc(b, w, i).cost by {
        assert(a[w]@.len() == b[w]@.len());
        assert(has_arc(a, w, i));
        assert(arc(a, w, i).to == arc(b, w, i).to);
    }
    assert forall|k: int, i: int|
        0 <= k < groups && 1 <= i < b[1 + k]@.len() && (#[trigger] arc(b, 1 + k, i)).capacity
            == 0 implies pot[arc(b, 1 + k, i).to as int] == pot[1 + k] + arc(b, 1 + k, i).cost by {
        assert(a[1 + k]@.len() == b[1 + k]@.len());
        assert(has_arc(a, 1 + k, i));
        assert(arc(a, 1 + k, i).to == arc(b, 1 + k, i).to);
    }
}

/// One step of the augmentation, from `node` to its predecessor `u`.
proof fn lemma_step(
    a: Seq<Vec<FlowEdge>>,
    b: Seq<Vec<FlowEdge>>,
    groups: int,
    slots: int,
    dist: Seq<i128>,
    pot: Seq<int>,
    stamp: Seq<int>,
    node: int,
    u: int,
    e: int,
)
    requires
        groups >= 0,
        slots >= 0,
        shaped(a, groups, slots, groups, slots),
        shaped(b, groups, slots, groups, slots),
        paired(a),
        0 < node < a.len(),
        midway(a, groups, slots, dist, pot, stamp, node),
        has_arc(a, u, e),
        arc(a, u, e).to == node,
        arc(a, u, e).capacity == 1,
        lower(dist, pot, stamp, u, node),
        node == 1 + groups + slots || lower(dist, pot, stamp, node, 1 + groups + slots),
        sent(a, b, u, e),
    ensures
        midway(b, groups, slots, dist, pot, stamp, u),
        u != 1 + groups + slots,
{
    let sink = 1 + groups + slots;
    let r = arc(a, u, e).reverse as int;
    assert(u != sink);
    assert(has_arc(a, node, r));
    let back = arc(a, node, r);
    assert(back.to == u && back.reverse == e && back.capacity == 0);
    assert(arc(b, node, r).capacity == 1);
    assert(arc(b, u, e).capacity == 0);
    // Rows other than those of `u` and `node` keep their capacities.
    assert forall|k: int| 0 <= k < groups && 1 + k != u && 1 + k != node && (u != 0 || k != e)
        && #[trigger] group_balanced_but(a, k, -1) implies group_balanced_but(b, k, -1) by {
        assert(a[1 + k]@.len() == b[1 + k]@.len());
        assert(has_arc(a, 0, k));
        assert(arc(b, 0, k).capacity == arc(a, 0, k).capacity);
        lemma_group_kept(a, b, k, -1);
    }
    assert forall|s: int| 0 <= s < slots && 1 + groups + s != u && 1 + groups + s != node
        && #[trigger] slot_balanced(a, groups, s) implies slot_balanced(b, groups, s) by {
        assert(slot_row(a, groups, slots, slots, s));
        assert(a[1 + groups + s]@.len() == b[1 + groups + s]@.len());
        lemma_slot_kept(a, b, groups, s);
    }
    if u == 0 {
        assert(arc(a, 0, e).to == 1 + e);
        let k = node - 1;
        assert(group_row(a, groups, slots, groups, k));
        assert(group_row(b, groups, slots, groups, k));
        let skip = choose|skip: int|
            {
                &&& 1 <= skip < a[node]@.len()
                &&& (#[trigger] arc(a, node, skip)).capacity == 0
                &&& lower(dist, pot, stamp, node, arc(a, node, skip).to as int)
                &&& group_balanced_but(a, node - 1, skip)
            };
        assert(arc(a, 0, k).reverse == 0);
        assert(r == 0);
        assert(has_arc(a, node, skip));
        assert(arc(b, node, skip).capacity == 0);
        assert forall|i: int| 1 <= i < b[node]@.len() && i != -1 && i != skip implies (
        #[trigger] arc(b, 1 + k, i)).capacity == 1 by {
            assert(has_arc(a, node, i));
            assert(arc(a, 1 + k, i).capacity == 1);
        }
        assert(group_uses_but(b, k, skip, -1));
        assert(has_arc(a, 0, k));
        assert(arc(b, 0, k).capacity == 0);
        assert(group_balanced_but(b, k, -1));
        assert forall|k2: int| 0 <= k2 < groups implies #[trigger] group_balanced_but(b, k2, -1) by {
            if k2 != k {
                assert(group_balanced_but(a, k2, -1));
            }
        }
        assert forall|s2: int| 0 <= s2 < slots implies #[trigger] slot_balanced(b, groups, s2) by {
            assert(slot_balanced(a, groups, s2));
        }
        assert(balanced(b, groups, slots));
    } else if u <= groups {
        // A group feeds the slot `node`.
        let k = u - 1;
        assert(group_row(a, groups, slots, groups, k));
        assert(group_row(b, groups, slots, groups, k));
        assert(e >= 1);
        let s = node - 1 - groups;
        assert(0 <= s < slots);
        assert(slot_row(a, groups, slots, slots, s));
        assert(r >= 1);
        assert(slot_fed(b, groups, s, r)) by {
            assert forall|i: int| 1 <= i < b[1 + groups + s]@.len() && i != r implies (
            #[trigger] arc(b, 1 + groups + s, i)).capacity == 0 by {
                assert(has_arc(a, node, i));
                assert(arc(a, 1 + groups + s, i).capacity == 0);
            }
        }
        assert(has_arc(a, node, 0));
        assert(arc(b, node, 0).capacity == 0);
        assert(slot_balanced(b, groups, s));
        assert(group_balanced_but(a, k, -1));
        assert(has_arc(a, 0, k));
        assert(arc(b, 0, k).capacity == arc(a, 0, k).capacity);
        if arc(a, 0, k).capacity == 1 {
            assert forall|i: int| 1 <= i < b[1 + k]@.len() && i != e implies (#[trigger] arc(
                b,
                1 + k,
                i,
            )).capacity == 1 by {
                assert(has_arc(a, 1 + k, i));
                assert(arc(a, 1 + k, i).capacity == 1);
            }
            assert(group_clear_but(b, k, e));
        } else {
            let at = choose|at: int| #[trigger] group_uses_but(a, k, at, -1);
            assert(has_arc(a, 1 + k, at));
            assert(arc(b, 1 + k, at).capacity == 0);
            assert forall|i: int| 1 <= i < b[1 + k]@.len() && i != e && i != at implies (
            #[trigger] arc(b, 1 + k, i)).capacity == 1 by {
                assert(has_arc(a, 1 + k, i));
                assert(arc(a, 1 + k, i).capacity == 1);
            }
            assert(group_uses_but(b, k, at, e));
        }
        assert(group_balanced_but(b, u - 1, e));
        assert(arc(b, u, e).to == arc(a, u, e).to);
        assert(1 <= e < b[u]@.len());
        assert forall|s2: int| 0 <= s2 < slots implies #[trigger] slot_balanced(b, groups, s2) by {
            if s2 != s {
                assert(slot_balanced(a, groups, s2));
            }
        }
        assert forall|k2: int| 0 <= k2 < groups && k2 != u - 1 implies #[trigger] group_balanced_but(
            b,
            k2,
            -1,
        ) by {
            assert(group_balanced_but(a, k2, -1));
        }
        assert(midway(b, groups, slots, dist, pot, stamp, u));
    } else {
        let s = u - 1 - groups;
        assert(slot_row(a, groups, slots, slots, s));
        assert(slot_row(b, groups, slots, slots, s));
        if node == sink {
            assert(e == 0) by {
                if e >= 1 {
                    assert(arc(a, 1 + groups + s, e).to < 1 + groups);
                }
            }
            assert(slot_balanced(a, groups, s));
            assert(slot_clear(a, groups, s));
            assert forall|i: int| 1 <= i < b[u]@.len() implies (#[trigger] arc(
                b,
                1 + groups + s,
                i,
            )).capacity == 0 by {
                assert(has_arc(a, u, i));
                assert(arc(a, 1 + groups + s, i).capacity == 0);
            }
            assert forall|k2: int| 0 <= k2 < groups implies #[trigger] group_balanced_but(
                b,
                k2,
                -1,
            ) by {
                assert(group_balanced_but(a, k2, -1));
            }
            assert forall|s2: int| 0 <= s2 < slots && s2 != s implies #[trigger] slot_balanced(
                b,
                groups,
                s2,
            ) by {
                assert(slot_balanced(a, groups, s2));
            }
            assert(midway(b, groups, slots, dist, pot, stamp, u));
        } else {
            // The group `node` gives up the slot `u`.
            assert(e >= 1);
            let k = node - 1;
            assert(0 <= k < groups);
            assert(group_row(a, groups, slots, groups, k));
            assert(group_row(b, groups, slots, groups, k));
            let skip = choose|skip: int|
                {
                    &&& 1 <= skip < a[node]@.len()
                    &&& (#[trigger] arc(a, node, skip)).capacity == 0
                    &&& lower(dist, pot, stamp, node, arc(a, node, skip).to as int)
                    &&& group_balanced_but(a, node - 1, skip)
                };
            assert(r >= 1);
            assert(r != skip);
            assert(arc(a, 1 + k, r).capacity == 0);
            assert(arc(a, 0, k).capacity != 1);
            let at = choose|at: int| #[trigger] group_uses_but(a, k, at, skip);
            assert(at == r);
            assert(has_arc(a, node, skip));
            assert(arc(b, node, skip).capacity == 0);
            assert forall|i: int| 1 <= i < b[node]@.len() && i != -1 && i != skip implies (
            #[trigger] arc(b, 1 + k, i)).capacity == 1 by {
                assert(has_arc(a, node, i));
                if i != r {
                    assert(arc(a, 1 + k, i).capacity == 1);
                }
            }
            assert(group_uses_but(b, k, skip, -1));
            assert(has_arc(a, 0, k));
            assert(arc(b, 0, k).capacity == arc(a, 0, k).capacity);
            assert(group_balanced_but(b, k, -1));
            assert(slot_balanced(a, groups, s));
            assert(has_arc(a, u, 0));
            assert(arc(a, 1 + groups + s, e).capacity == 1);
            assert(arc(a, u, 0).capacity != 1);
            let fed = choose|fed: int| #[trigger] slot_fed(a, groups, s, fed);
            assert(fed == e);
            assert forall|i: int| 1 <= i < b[u]@.len() implies (#[trigger] arc(
                b,
                1 + groups + s,
                i,
            )).capacity == 0 by {
                assert(has_arc(a, u, i));
                if i != e {
                    assert(arc(a, 1 + groups + s, i).capacity == 0);
                }
            }
            assert(arc(a, u, 0).to == sink);
            assert(has_arc(a, sink, s));
            assert(arc(a, u, 0).capacity == 0);
            assert(arc(b, u, 0).capacity == 0);
            assert forall|k2: int| 0 <= k2 < groups implies #[trigger] group_balanced_but(
                b,
                k2,
                -1,
            ) by {
                if k2 != k {
                    assert(group_balanced_but(a, k2, -1));
                }
            }
            assert forall|s2: int| 0 <= s2 < slots && s2 != s implies #[trigger] slot_balanced(
                b,
                groups,
                s2,
            ) by {
                assert(slot_balanced(a, groups, s2));
            }
            assert(midway(b, groups, slots, dist, pot, stamp, u));
        }
    }
}

/// A unit is sent along the arc that leads to the node.
proof fn lemma_step_trace(start: FlowState, sink: int, a: FlowState, b: FlowState)
    requires
        reaches(start, sink, a),
        a.phase is Trace,
        a.phase->Trace_0 != 0,
        a.pred[a.phase->Trace_0 as int] is Some,
        ({
            let (u, e) = a.pred[a.phase->Trace_0 as int]->0;
            &&& b.rows == with_unit(a.rows, u as int, e as int)
            &&& b.phase == FlowPhase::Trace(u)
        }),
        b.dist == a.dist,
        b.pred == a.pred,
        b.queued == a.queued,
        b.queue == a.queue,
    ensures
        reaches(start, sink, b),
{
    reveal(stepped);
    lemma_flow_step(start, sink, a, b);
}

/// Sending a unit changes two capacities.
proof fn lemma_unit_rows(a: Seq<Vec<FlowEdge>>, b: Seq<Vec<FlowEdge>>, u: int, e: int)
    requires
        sent(a, b, u, e),
        has_arc(a, u, e),
        paired(a),
        same_arcs(a, b),
    ensures
        rows_of(b) == with_unit(rows_of(a), u, e),
{
    let x = rows_of(b);
    let y = with_unit(rows_of(a), u, e);
    let edge = arc(a, u, e);
    assert(has_arc(a, edge.to as int, edge.reverse as int));
    assert forall|w: int| 0 <= w < x.len() implies x[w] == y[w] by {
        assert(a[w]@.len() == b[w]@.len());
        assert forall|i: int| 0 <= i < x[w].len() implies x[w][i] == y[w][i] by {
            assert(has_arc(a, w, i));
            assert(arc(a, w, i).to == arc(b, w, i).to);
            assert(x[w][i] == arc(b, w, i));
        }
        assert(x[w] =~= y[w]);
    }
    assert(x =~= y);
}

/// Sends one unit along the path of predecessors from the source to the sink.
#[verifier::spinoff_prover]
#[verifier::rlimit(80)]
fn augment(
    graph: &mut Vec<Vec<FlowEdge>>,
    paths: &ShortestPaths,
    sink: usize,
    Ghost(groups): Ghost<int>,
    Ghost(slots): Ghost<int>,
    Ghost(pot): Ghost<Seq<int>>,
    Ghost(next): Ghost<Seq<int>>,
    Ghost(stood): Ghost<FlowState>,
)
    requires
        stood.rows == rows_of(old(graph)@),
        stood.pred == paths.predecessor@,
        stood.phase == FlowPhase::Trace(sink),
        groups >= 0,
        slots >= 0,
        sink == 1 + groups + slots,
        shaped(old(graph)@, groups, slots, groups, slots),
        paired(old(graph)@),
        balanced(old(graph)@, groups, slots),
        settled(old(graph)@, pot, *paths),
        paths.distance@[sink as int] != i128::MAX,
        feasible(old(graph)@, groups, next),
        forall|v: int|
            0 <= v < old(graph)@.len() && #[trigger] paths.distance@[v] != i128::MAX ==> next[v]
                == paths.distance@[v],
    ensures
        same_arcs(old(graph)@, final(graph)@),
        shaped(final(graph)@, groups, slots, groups, slots),
        paired(final(graph)@),
        balanced(final(graph)@, groups, slots),
        feasible(final(graph)@, groups, next),
        source_capacity(final(graph)@) == source_capacity(old(graph)@) - 1,
        reaches(
            stood,
            sink as int,
            (FlowState { rows: rows_of(final(graph)@), phase: FlowPhase::Trace(0), ..stood }),
        ),
{
    let ghost g0 = graph@;
    proof {
        lemma_reaches_itself(stood, sink as int);
        assert(stood == FlowState {
            rows: rows_of(graph@),
            phase: FlowPhase::Trace(sink),
            ..stood
        });
    }
    let ghost dist = paths.distance@;
    let ghost pred = paths.predecessor@;
    let ghost stamp = paths.stamp@;
    let ghost clock = choose|clock: int| #[trigger] grown(g0, pot, dist, pred, stamp, clock);
    let mut node: usize = sink;
    while node != 0
        invariant
            groups >= 0,
            slots >= 0,
            sink == 1 + groups + slots,
            g0.len() == groups + slots + 2,
            shaped(g0, groups, slots, groups, slots),
            grown(g0, pot, dist, pred, stamp, clock),
            settled(g0, pot, *paths),
            dist == paths.distance@,
            pred == paths.predecessor@,
            stamp == paths.stamp@,
            forall|v: int|
                0 <= v < g0.len() && #[trigger] dist[v] != i128::MAX ==> next[v] == dist[v],
            node < g0.len(),
            dist[node as int] != i128::MAX,
            node == sink || lower(dist, pot, stamp, node as int, sink as int),
            same_arcs(g0, graph@),
            shaped(graph@, groups, slots, groups, slots),
            paired(graph@),
            feasible(graph@, groups, next),
            midway(graph@, groups, slots, dist, pot, stamp, node as int),
            node != 0 ==> forall|u: int, i: int|
                #![trigger arc(graph@, u, i)]
                has_arc(g0, u, i) && lower(dist, pot, stamp, u, node as int) ==> arc(graph@, u, i)
                    == arc(g0, u, i),
            node == 0 ==> source_capacity(graph@) == source_capacity(g0) - 1,
            stood.pred == paths.predecessor@,
            reaches(
                stood,
                sink as int,
                (FlowState { rows: rows_of(graph@), phase: FlowPhase::Trace(node), ..stood }),
            ),
        decreases reduced(dist, pot, node as int), stamp[node as int],
    {
        let ghost here = node as int;
        let ghost before = graph@;
        assert(pred[here] is Some);
        let (previous, edge_index) = match paths.predecessor[node] {
            Some(link) => link,
            None => {
                return;
            },
        };
        proof {
            assert(has_arc(g0, previous as int, edge_index as int));
            assert(lower(dist, pot, stamp, previous as int, here));
            assert(arc(before, previous as int, edge_index as int) == arc(
                g0,
                previous as int,
                edge_index as int,
            ));
            assert(g0[previous as int]@.len() == before[previous as int]@.len());
            assert(has_arc(before, previous as int, edge_index as int));
            assert(reduced(dist, pot, previous as int) >= 0);
            assert(dist[here] == dist[previous as int] + arc(g0, previous as int, edge_index as int).cost);
        }
        saturate(graph, previous, edge_index);
        proof {
            let after = graph@;
            let u = previous as int;
            let e = edge_index as int;
            assert(sent(before, after, u, e));
            lemma_unit_rows(before, after, u, e);
            lemma_step_trace(
                stood,
                sink as int,
                FlowState { rows: rows_of(before), phase: FlowPhase::Trace(node), ..stood },
                FlowState { rows: rows_of(after), phase: FlowPhase::Trace(previous), ..stood },
            );
            lemma_shape_kept(before, after, groups, slots);
            lemma_pairs_kept(before, after, u, e);
            lemma_feasible_kept(before, after, groups, next, u, e);
            lemma_step(before, after, groups, slots, dist, pot, stamp, here, u, e);
            assert forall|w: int| 0 <= w < g0.len() implies (#[trigger] g0[w])@.len() == after[w]@.len() by {
                assert(g0[w]@.len() == before[w]@.len());
                assert(before[w]@.len() == after[w]@.len());
            }
            assert(same_arcs(g0, after)) by {
                assert forall|w: int, i: int|
                    #![trigger arc(g0, w, i)]
                    #![trigger arc(after, w, i)]
                    has_arc(g0, w, i) implies arc(g0, w, i).to == arc(after, w, i).to && arc(
                    g0,
                    w,
                    i,
                ).reverse == arc(after, w, i).reverse && arc(g0, w, i).cost == arc(after, w, i).cost by {
                    assert(g0[w]@.len() == before[w]@.len());
                    assert(has_arc(before, w, i));
                    assert(arc(g0, w, i).to == arc(before, w, i).to);
                    assert(arc(before, w, i).to == arc(after, w, i).to);
                }
            }
            assert forall|w: int, i: int|
                #![trigger arc(after, w, i)]
                has_arc(g0, w, i) && u != 0 && lower(dist, pot, stamp, w, u) implies arc(after, w, i)
                == arc(g0, w, i) by {
                assert(g0[w]@.len() == before[w]@.len());
                assert(has_arc(before, w, i));
                assert(arc(before, w, i) == arc(g0, w, i));
                assert(arc(before, w, i).to == arc(after, w, i).to);
            }
            if u == 0 {
                let caps0 = Seq::new(g0[0]@.len(), |k: int| arc(g0, 0, k).capacity as int);
                let caps1 = Seq::new(after[0]@.len(), |k: int| arc(after, 0, k).capacity as int);
                assert(g0[0]@.len() == after[0]@.len());
                assert forall|k: int| 0 <= k < caps0.len() implies caps1[k] == caps0.update(e, 0)[k] by {
                    assert(has_arc(g0, 0, k));
                    assert(g0[0]@.len() == before[0]@.len());
                    assert(has_arc(before, 0, k));
                    assert(arc(before, 0, k) == arc(g0, 0, k));
                    assert(arc(after, 0, k).capacity == if k == e { 0 } else { arc(before, 0, k).capacity });
                }
                assert(caps1 =~= caps0.update(e, 0));
                lemma_total_update(caps0, e, 0);
            } else {
                assert(pred[u] is Some);
                assert(stamp[u] > 0);
            }
        }
        node = previous;
    }
}


// ---------------------------------------------------------------------------------------------
// Building the network
// ---------------------------------------------------------------------------------------------

/// `b` is `a` with an arc from `from` to `to` and its counterpart added.
spec fn extended(
    a: Seq<Vec<FlowEdge>>,
    b: Seq<Vec<FlowEdge>>,
    from: int,
    to: int,
    cost: i128,
) -> bool {
    &&& b.len() == a.len()
    &&& b[from]@ == a[from]@.push(
        FlowEdge { to: to as usize, reverse: a[to]@.len() as usize, capacity: 1, cost },
    )
    &&& b[to]@ == a[to]@.push(
        FlowEdge {
            to: from as usize,
            reverse: a[from]@.len() as usize,
            capacity: 0,
            cost: (-cost) as i128,
        },
    )
    &&& forall|u: int| 0 <= u < a.len() && u != from && u != to ==> #[trigger] b[u] == a[u]
}

/// An added arc is one more link.
proof fn lemma_linked_rows(
    a: Seq<Vec<FlowEdge>>,
    b: Seq<Vec<FlowEdge>>,
    from: int,
    to: int,
    cost: i128,
)
    requires
        extended(a, b, from, to, cost),
        0 <= from < a.len(),
        0 <= to < a.len(),
        from != to,
    ensures
        rows_of(b) == linked(rows_of(a), from, to, cost),
{
    let x = rows_of(b);
    let y = linked(rows_of(a), from, to, cost);
    assert forall|u: int| 0 <= u < x.len() implies x[u] == y[u] by {
        if u != from && u != to {
            assert(b[u] == a[u]);
        }
    }
    assert(x =~= y);
}

proof fn lemma_extended(
    a: Seq<Vec<FlowEdge>>,
    b: Seq<Vec<FlowEdge>>,
    from: int,
    to: int,
    cost: i128,
)
    requires
        paired(a),
        a.len() <= usize::MAX,
        0 <= from < a.len(),
        0 <= to < a.len(),
        from != to,
        cost > i128::MIN,
        extended(a, b, from, to, cost),
        a[from]@.len() <= usize::MAX,
        a[to]@.len() <= usize::MAX,
    ensures
        paired(b),
        forall|u: int, i: int|
            #![trigger arc(b, u, i)]
            has_arc(a, u, i) ==> arc(b, u, i) == arc(a, u, i),
        arc(b, from, a[from]@.len() as int) == (FlowEdge {
            to: to as usize,
            reverse: a[to]@.len() as usize,
            capacity: 1,
            cost,
        }),
        arc(b, to, a[to]@.len() as int) == (FlowEdge {
            to: from as usize,
            reverse: a[from]@.len() as usize,
            capacity: 0,
            cost: (-cost) as i128,
        }),
{
    assert forall|u: int, i: int|
        #![trigger arc(b, u, i)]
        has_arc(a, u, i) implies arc(b, u, i) == arc(a, u, i) by {
        if u != from && u != to {
            assert(b[u] == a[u]);
        }
    }
    let forward = arc(b, from, a[from]@.len() as int);
    let backward = arc(b, to, a[to]@.len() as int);
    assert forall|u: int, i: int|
        #![trigger arc(b, u, i)]
        has_arc(b, u, i) implies ({
        let e = arc(b, u, i);
        let r = arc(b, e.to as int, e.reverse as int);
        &&& e.to != u
        &&& has_arc(b, e.to as int, e.reverse as int)
        &&& r.to == u
        &&& r.reverse == i
        &&& r.cost == -e.cost
        &&& e.capacity + r.capacity == 1
    }) by {
        if u != from && u != to {
            assert(b[u] == a[u]);
        }
        if has_arc(a, u, i) {
            let e = arc(a, u, i);
            assert(arc(b, u, i) == e);
            assert(has_arc(a, e.to as int, e.reverse as int));
            assert(arc(b, e.to as int, e.reverse as int) == arc(a, e.to as int, e.reverse as int));
            if e.to != from && e.to != to {
                assert(b[e.to as int] == a[e.to as int]);
            }
        } else if u == from {
            assert(i == a[from]@.len());
            assert(backward.to == from);
        } else {
            assert(u == to && i == a[to]@.len());
            assert(forward.to == to);
        }
    }
}

proof fn lemma_source_linked(a: Seq<Vec<FlowEdge>>, b: Seq<Vec<FlowEdge>>, groups: int, slots: int, done: int)
    requires
        0 <= done < groups,
        slots >= 0,
        a.len() <= usize::MAX,
        shaped(a, groups, slots, done, 0),
        paired(a),
        unused(a, groups, slots),
        extended(a, b, 0, 1 + done, 0),
    ensures
        shaped(b, groups, slots, done + 1, 0),
        paired(b),
        unused(b, groups, slots),
{
    let sink = 1 + groups + slots;
    assert(group_row(a, groups, slots, done, done));
    lemma_extended(a, b, 0, 1 + done, 0);
    assert forall|k: int| 0 <= k < done + 1 implies (#[trigger] arc(b, 0, k)).to == 1 + k
        && arc(b, 0, k).reverse == 0 && arc(b, 0, k).cost == 0 by {
        if k < done {
            assert(has_arc(a, 0, k));
            assert(arc(a, 0, k).to == 1 + k);
        }
    }
    assert forall|k: int| 0 <= k < groups implies #[trigger] group_row(b, groups, slots, done + 1, k) by {
        assert(group_row(a, groups, slots, done, k));
        if k != done {
            assert(b[1 + k] == a[1 + k]);
            if k < done {
                assert(arc(b, 1 + k, 0) == arc(a, 1 + k, 0));
                assert forall|i: int| 1 <= i < b[1 + k]@.len() implies 1 + groups <= (
                #[trigger] arc(b, 1 + k, i)).to < 1 + groups + slots && arc(b, 1 + k, i).reverse
                    >= 1 by {
                    assert(arc(a, 1 + k, i).reverse >= 1);
                }
            }
        }
    }
    assert forall|s: int| 0 <= s < slots implies #[trigger] slot_row(b, groups, slots, 0, s) by {
        assert(slot_row(a, groups, slots, 0, s));
        assert(b[1 + groups + s] == a[1 + groups + s]);
    }
    assert(b[sink] == a[sink]);
    assert forall|k: int| 0 <= k < b[0]@.len() implies (#[trigger] arc(b, 0, k)).capacity == 1 by {
        if k < done {
            assert(arc(a, 0, k).capacity == 1);
        }
    }
    assert forall|k: int, i: int| 0 <= k < groups && 1 <= i < b[1 + k]@.len() implies (
    #[trigger] arc(b, 1 + k, i)).capacity == 1 by {
        if k != done {
            assert(b[1 + k] == a[1 + k]);
            assert(arc(a, 1 + k, i).capacity == 1);
        }
    }
    assert forall|s: int| 0 <= s < slots && b[1 + groups + s]@.len() > 0 implies (#[trigger] arc(
        b,
        1 + groups + s,
        0,
    )).capacity == 1 by {
        assert(b[1 + groups + s] == a[1 + groups + s]);
        assert(arc(a, 1 + groups + s, 0).capacity == 1);
    }
}

proof fn lemma_sink_linked(a: Seq<Vec<FlowEdge>>, b: Seq<Vec<FlowEdge>>, groups: int, slots: int, done: int)
    requires
        groups >= 0,
        0 <= done < slots,
        a.len() <= usize::MAX,
        shaped(a, groups, slots, groups, done),
        paired(a),
        unused(a, groups, slots),
        extended(a, b, 1 + groups + done, 1 + groups + slots, 0),
    ensures
        shaped(b, groups, slots, groups, done + 1),
        paired(b),
        unused(b, groups, slots),
{
    let sink = 1 + groups + slots;
    assert(slot_row(a, groups, slots, done, done));
    lemma_extended(a, b, 1 + groups + done, sink, 0);
    assert(b[0] == a[0]);
    assert forall|k: int| 0 <= k < groups implies (#[trigger] arc(b, 0, k)).to == 1 + k
        && arc(b, 0, k).reverse == 0 && arc(b, 0, k).cost == 0 by {
        assert(arc(a, 0, k).to == 1 + k);
    }
    assert forall|k: int| 0 <= k < groups implies #[trigger] group_row(b, groups, slots, groups, k) by {
        assert(group_row(a, groups, slots, groups, k));
        assert(b[1 + k] == a[1 + k]);
        assert(arc(b, 1 + k, 0) == arc(a, 1 + k, 0));
        assert forall|i: int| 1 <= i < b[1 + k]@.len() implies 1 + groups <= (#[trigger] arc(
            b,
            1 + k,
            i,
        )).to < 1 + groups + slots && arc(b, 1 + k, i).reverse >= 1 by {
            assert(arc(a, 1 + k, i).reverse >= 1);
        }
    }
    assert forall|s: int| 0 <= s < slots implies #[trigger] slot_row(b, groups, slots, done + 1, s) by {
        assert(slot_row(a, groups, slots, done, s));
        if s != done {
            assert(b[1 + groups + s] == a[1 + groups + s]);
            if s < done {
                assert(arc(b, 1 + groups + s, 0) == arc(a, 1 + groups + s, 0));
                assert forall|i: int| 1 <= i < b[1 + groups + s]@.len() implies 1 <= (
                #[trigger] arc(b, 1 + groups + s, i)).to < 1 + groups && arc(
                    b,
                    1 + groups + s,
                    i,
                ).reverse >= 1 by {
                    assert(arc(a, 1 + groups + s, i).reverse >= 1);
                }
            }
        }
    }
    assert forall|s: int| 0 <= s < done + 1 implies (#[trigger] arc(b, sink, s)).to == 1 + groups
        + s && arc(b, sink, s).reverse == 0 by {
        if s < done {
            assert(has_arc(a, sink, s));
            assert(arc(a, sink, s).to == 1 + groups + s);
        }
    }
    assert forall|k: int| 0 <= k < b[0]@.len() implies (#[trigger] arc(b, 0, k)).capacity == 1 by {
        assert(arc(a, 0, k).capacity == 1);
    }
    assert forall|k: int, i: int| 0 <= k < groups && 1 <= i < b[1 + k]@.len() implies (
    #[trigger] arc(b, 1 + k, i)).capacity == 1 by {
        assert(b[1 + k] == a[1 + k]);
        assert(arc(a, 1 + k, i).capacity == 1);
    }
    assert forall|s: int| 0 <= s < slots && b[1 + groups + s]@.len() > 0 implies (#[trigger] arc(
        b,
        1 + groups + s,
        0,
    )).capacity == 1 by {
        if s != done {
            assert(b[1 + groups + s] == a[1 + groups + s]);
            assert(arc(a, 1 + groups + s, 0).capacity == 1);
        }
    }
}

proof fn lemma_pair_linked(
    a: Seq<Vec<FlowEdge>>,
    b: Seq<Vec<FlowEdge>>,
    groups: int,
    slots: int,
    group: int,
    slot: int,
    cost: i128,
)
    requires
        0 <= group < groups,
        0 <= slot < slots,
        a.len() <= usize::MAX,
        cost > i128::MIN,
        a[1 + group]@.len() <= usize::MAX,
        a[1 + groups + slot]@.len() <= usize::MAX,
        shaped(a, groups, slots, groups, slots),
        paired(a),
        unused(a, groups, slots),
        extended(a, b, 1 + group, 1 + groups + slot, cost),
    ensures
        shaped(b, groups, slots, groups, slots),
        paired(b),
        unused(b, groups, slots),
{
    let sink = 1 + groups + slots;
    assert(group_row(a, groups, slots, groups, group));
    assert(slot_row(a, groups, slots, slots, slot));
    lemma_extended(a, b, 1 + group, 1 + groups + slot, cost);
    assert(b[0] == a[0]);
    assert(b[sink] == a[sink]);
    assert forall|k: int| 0 <= k < groups implies (#[trigger] arc(b, 0, k)).to == 1 + k
        && arc(b, 0, k).reverse == 0 && arc(b, 0, k).cost == 0 by {
        assert(arc(a, 0, k).to == 1 + k);
    }
    assert forall|k: int| 0 <= k < groups implies #[trigger] group_row(b, groups, slots, groups, k) by {
        assert(group_row(a, groups, slots, groups, k));
        if k != group {
            assert(b[1 + k] == a[1 + k]);
        }
        assert(has_arc(a, 1 + k, 0));
        assert(arc(b, 1 + k, 0) == arc(a, 1 + k, 0));
        assert forall|i: int| 1 <= i < b[1 + k]@.len() implies 1 + groups <= (#[trigger] arc(
            b,
            1 + k,
            i,
        )).to < 1 + groups + slots && arc(b, 1 + k, i).reverse >= 1 by {
            if i < a[1 + k]@.len() {
                assert(has_arc(a, 1 + k, i));
                assert(arc(a, 1 + k, i).reverse >= 1);
            }
        }
    }
    assert forall|s: int| 0 <= s < slots implies #[trigger] slot_row(b, groups, slots, slots, s) by {
        let row = 1 + groups + s;
        assert(slot_row(a, groups, slots, slots, s));
        if s != slot {
            assert(b[row] == a[row]);
        }
        assert(has_arc(a, row, 0));
        assert(arc(b, row, 0) == arc(a, row, 0));
        assert forall|i: int| 1 <= i < b[row]@.len() implies 1 <= (#[trigger] arc(b, 1 + groups + s, i)).to
            < 1 + groups && arc(b, 1 + groups + s, i).reverse >= 1 by {
            if i < a[row]@.len() {
                assert(has_arc(a, row, i));
                assert(arc(a, 1 + groups + s, i).reverse >= 1);
            }
        }
    }
    assert forall|s: int| 0 <= s < slots implies (#[trigger] arc(b, sink, s)).to == 1 + groups + s
        && arc(b, sink, s).reverse == 0 by {
        assert(arc(a, sink, s).to == 1 + groups + s);
    }
    assert forall|k: int| 0 <= k < b[0]@.len() implies (#[trigger] arc(b, 0, k)).capacity == 1 by {
        assert(arc(a, 0, k).capacity == 1);
    }
    assert forall|k: int, i: int| 0 <= k < groups && 1 <= i < b[1 + k]@.len() implies (
    #[trigger] arc(b, 1 + k, i)).capacity == 1 by {
        if k != group {
            assert(b[1 + k] == a[1 + k]);
            assert(arc(a, 1 + k, i).capacity == 1);
        } else if i < a[1 + k]@.len() {
            assert(has_arc(a, 1 + k, i));
            assert(arc(a, 1 + k, i).capacity == 1);
        }
    }
    assert forall|s: int| 0 <= s < slots && b[1 + groups + s]@.len() > 0 implies (#[trigger] arc(
        b,
        1 + groups + s,
        0,
    )).capacity == 1 by {
        assert(slot_row(a, groups, slots, slots, s));
        assert(has_arc(a, 1 + groups + s, 0));
        assert(arc(a, 1 + groups + s, 0).capacity == 1);
    }
}

/// The arc at `position` in the row of the edge's group stands for the edge.
spec fn edge_placed(
    g: Seq<Vec<FlowEdge>>,
    group_count: usize,
    slot_count: usize,
    edge: MatchEdge,
    position: usize,
) -> bool {
    let at = 1 + edge.group as int;
    &&& edge.group < group_count
    &&& edge.slot < slot_count
    &&& 1 <= position < g[at]@.len()
    &&& arc(g, at, position as int).to == 1 + group_count + edge.slot
    &&& arc(g, at, position as int).cost == edge_cost(group_count, slot_count, edge)
}

/// Where the candidate edges stand in the network.
spec fn placed(
    g: Seq<Vec<FlowEdge>>,
    group_count: usize,
    slot_count: usize,
    edges: Seq<MatchEdge>,
    positions: Seq<usize>,
) -> bool {
    &&& positions.len() <= edges.len()
    &&& forall|j: int|
        0 <= j < positions.len() ==> edge_placed(
            g,
            group_count,
            slot_count,
            edges[j],
            #[trigger] positions[j],
        )
    &&& forall|i: int, j: int|
        0 <= i < j < positions.len() && edges[i].group == edges[j].group ==> #[trigger] positions[i]
            < #[trigger] positions[j]
    &&& forall|k: int, i: int|
        0 <= k < group_count && 1 <= i < g[1 + k]@.len() ==> #[trigger] listed_at(
            edges,
            positions,
            k,
            i,
        )
}

spec fn listed_at(edges: Seq<MatchEdge>, positions: Seq<usize>, k: int, i: int) -> bool {
    exists|j: int|
        0 <= j < positions.len() && edges[j].group == k && #[trigger] positions[j] == i
}

// ---------------------------------------------------------------------------------------------
// Optimality
// ---------------------------------------------------------------------------------------------

spec fn group_ids(chosen: Seq<MatchEdge>) -> Seq<int> {
    chosen.map_values(|e: MatchEdge| e.group as int)
}

spec fn slot_ids(chosen: Seq<MatchEdge>) -> Seq<int> {
    chosen.map_values(|e: MatchEdge| e.slot as int)
}

proof fn lemma_cost_bound(
    group_count: usize,
    slot_count: usize,
    chosen: Seq<MatchEdge>,
    pg: Seq<int>,
    ps: Seq<int>,
    level: bool,
)
    requires
        forall|i: int|
            0 <= i < chosen.len() ==> edge_cost(group_count, slot_count, #[trigger] chosen[i])
                >= ps[chosen[i].slot as int] - pg[chosen[i].group as int],
        level ==> forall|i: int|
            0 <= i < chosen.len() ==> edge_cost(group_count, slot_count, #[trigger] chosen[i])
                == ps[chosen[i].slot as int] - pg[chosen[i].group as int],
    ensures
        matching_cost(group_count, slot_count, chosen) >= sum_at(slot_ids(chosen), ps) - sum_at(
            group_ids(chosen),
            pg,
        ),
        level ==> matching_cost(group_count, slot_count, chosen) == sum_at(slot_ids(chosen), ps)
            - sum_at(group_ids(chosen), pg),
    decreases chosen.len(),
{
    if chosen.len() > 0 {
        let rest = chosen.drop_last();
        lemma_cost_bound(group_count, slot_count, rest, pg, ps, level);
        assert(group_ids(chosen).drop_last() =~= group_ids(rest));
        assert(slot_ids(chosen).drop_last() =~= slot_ids(rest));
        assert(chosen[chosen.len() - 1] == chosen.last());
    }
}

/// The edges in use form a matching.
proof fn lemma_chosen_matching(
    g: Seq<Vec<FlowEdge>>,
    group_count: usize,
    slot_count: usize,
    edges: Seq<MatchEdge>,
    positions: Seq<usize>,
    picks: Seq<int>,
    chosen: Seq<MatchEdge>,
)
    requires
        shaped(g, group_count as int, slot_count as int, group_count as int, slot_count as int),
        paired(g),
        balanced(g, group_count as int, slot_count as int),
        placed(g, group_count, slot_count, edges, positions),
        picks.len() == chosen.len(),
        forall|i: int|
            0 <= i < picks.len() ==> 0 <= #[trigger] picks[i] < positions.len() && chosen[i]
                == edges[picks[i]] && arc(
                g,
                1 + edges[picks[i]].group as int,
                positions[picks[i]] as int,
            ).capacity == 0,
        forall|i: int, j: int| 0 <= i < j < picks.len() ==> #[trigger] picks[i] < #[trigger] picks[j],
    ensures
        is_matching(edges, chosen),
{
    let groups = group_count as int;
    let slots = slot_count as int;
    assert forall|i: int| 0 <= i < chosen.len() implies edges.contains(#[trigger] chosen[i]) by {
        assert(edges[picks[i]] == chosen[i]);
    }
    assert forall|i: int, j: int| 0 <= i < j < chosen.len() implies (#[trigger] chosen[i]).group != (
    #[trigger] chosen[j]).group && chosen[i].slot != chosen[j].slot by {
        let a = picks[i];
        let b = picks[j];
        assert(a < b);
        let pa = positions[a] as int;
        let pb = positions[b] as int;
        let ka = chosen[i].group as int;
        let kb = chosen[j].group as int;
        assert(has_arc(g, 1 + ka, pa));
        assert(has_arc(g, 1 + kb, pb));
        assert(arc(g, 1 + ka, pa).capacity == 0);
        assert(arc(g, 1 + kb, pb).capacity == 0);
        if ka == kb {
            assert(group_balanced_but(g, ka, -1));
            if arc(g, 0, ka).capacity != 1 {
                let at = choose|at: int| #[trigger] group_uses_but(g, ka, at, -1);
            }
            assert(false);
        }
        if chosen[i].slot == chosen[j].slot {
            let s = chosen[i].slot as int;
            let row = 1 + groups + s;
            let ra = arc(g, 1 + ka, pa).reverse as int;
            let rb = arc(g, 1 + kb, pb).reverse as int;
            assert(has_arc(g, row, ra));
            assert(has_arc(g, row, rb));
            assert(arc(g, row, ra).to == 1 + ka && arc(g, row, ra).capacity == 1);
            assert(arc(g, row, rb).to == 1 + kb && arc(g, row, rb).capacity == 1);
            assert(ra != rb);
            assert(slot_row(g, groups, slots, slots, s));
            assert(group_row(g, groups, slots, groups, ka));
            assert(group_row(g, groups, slots, groups, kb));
            assert(ra >= 1 && rb >= 1);
            assert(slot_balanced(g, groups, s));
            if arc(g, row, 0).capacity != 1 {
                let at = choose|at: int| #[trigger] slot_fed(g, groups, s, at);
            }
            assert(false);
        }
    }
}

/// Potentials with the right sign at the sink certify that no other matching costs less.
proof fn lemma_cheapest(
    g: Seq<Vec<FlowEdge>>,
    group_count: usize,
    slot_count: usize,
    edges: Seq<MatchEdge>,
    positions: Seq<usize>,
    picks: Seq<int>,
    chosen: Seq<MatchEdge>,
    pot: Seq<int>,
    other: Seq<MatchEdge>,
)
    requires
        shaped(g, group_count as int, slot_count as int, group_count as int, slot_count as int),
        paired(g),
        balanced(g, group_count as int, slot_count as int),
        feasible(g, group_count as int, pot),
        placed(g, group_count, slot_count, edges, positions),
        positions.len() == edges.len(),
        picks.len() == chosen.len(),
        forall|i: int|
            0 <= i < picks.len() ==> 0 <= #[trigger] picks[i] < positions.len() && chosen[i]
                == edges[picks[i]] && arc(
                g,
                1 + edges[picks[i]].group as int,
                positions[picks[i]] as int,
            ).capacity == 0,
        forall|i: int, j: int| 0 <= i < j < picks.len() ==> #[trigger] picks[i] < #[trigger] picks[j],
        forall|j: int|
            #![trigger positions[j]]
            0 <= j < positions.len() && arc(
                g,
                1 + edges[j].group as int,
                positions[j] as int,
            ).capacity == 0 ==> picks.contains(j),
        is_matching(edges, other),
        other.len() > chosen.len() ==> pot[1 + group_count + slot_count] >= 0,
        other.len() < chosen.len() ==> pot[1 + group_count + slot_count] < 0,
    ensures
        matching_cost(group_count, slot_count, chosen) <= matching_cost(
            group_count,
            slot_count,
            other,
        ),
        other.len() < chosen.len() ==> matching_cost(group_count, slot_count, chosen)
            < matching_cost(group_count, slot_count, other),
{
    let groups = group_count as int;
    let slots = slot_count as int;
    let sink = 1 + groups + slots;
    let sigma = pot[sink];
    let pg = Seq::new(group_count as nat, |k: int| pot[1 + k]);
    let ps = Seq::new(slot_count as nat, |s: int| pot[1 + groups + s]);
    let hs = Seq::new(slot_count as nat, |s: int| pot[1 + groups + s] - sigma);
    lemma_chosen_matching(g, group_count, slot_count, edges, positions, picks, chosen);
    // Every candidate edge costs at least the potential it climbs; those in use exactly that.
    assert forall|j: int|
        #![trigger positions[j]]
        0 <= j < edges.len() implies edge_cost(group_count, slot_count, edges[j])
        >= ps[edges[j].slot as int] - pg[edges[j].group as int] by {
        let at = 1 + edges[j].group as int;
        assert(has_arc(g, at, positions[j] as int));
        let e = arc(g, at, positions[j] as int);
        assert(has_arc(g, e.to as int, e.reverse as int));
        if e.capacity != 1 {
            assert(e.capacity == 0);
        }
    }
    assert forall|i: int| 0 <= i < other.len() implies edge_cost(
        group_count,
        slot_count,
        #[trigger] other[i],
    ) >= ps[other[i].slot as int] - pg[other[i].group as int] && other[i].group < group_count
        && other[i].slot < slot_count by {
        assert(edges.contains(other[i]));
        let j = choose|j: int| 0 <= j < edges.len() && edges[j] == other[i];
        assert(positions[j] >= 1);
    }
    assert forall|i: int| 0 <= i < chosen.len() implies edge_cost(
        group_count,
        slot_count,
        #[trigger] chosen[i],
    ) == ps[chosen[i].slot as int] - pg[chosen[i].group as int] && chosen[i].group < group_count
        && chosen[i].slot < slot_count by {
        let j = picks[i];
        assert(positions[j] >= 1);
        let at = 1 + edges[j].group as int;
        assert(arc(g, at, positions[j] as int).capacity == 0);
    }
    lemma_cost_bound(group_count, slot_count, other, pg, ps, false);
    lemma_cost_bound(group_count, slot_count, chosen, pg, ps, true);
    let go = group_ids(other);
    let gc = group_ids(chosen);
    let so = slot_ids(other);
    let sc = slot_ids(chosen);
    assert forall|i: int| 0 <= i < go.len() implies 0 <= #[trigger] go[i] < pg.len() by {
        assert(other[i].group < group_count);
    }
    assert forall|i: int| 0 <= i < gc.len() implies 0 <= #[trigger] gc[i] < pg.len() by {
        assert(chosen[i].group < group_count);
    }
    assert forall|i: int| 0 <= i < so.len() implies 0 <= #[trigger] so[i] < ps.len() by {
        assert(other[i].slot < slot_count);
    }
    assert forall|i: int| 0 <= i < sc.len() implies 0 <= #[trigger] sc[i] < ps.len() by {
        assert(chosen[i].slot < slot_count);
    }
    lemma_ids_distinct(edges, other);
    lemma_ids_distinct(edges, chosen);
    lemma_sum_at_masked(go, pg);
    lemma_sum_at_masked(gc, pg);
    assert forall|k: int| 0 <= k < pg.len() implies masked(go, pg)[k] <= masked(gc, pg)[k] by {
        assert(has_arc(g, 0, k));
        assert(arc(g, 0, k).to == 1 + k && arc(g, 0, k).reverse == 0);
        assert(has_arc(g, 1 + k, 0));
        assert(arc(g, 1 + k, 0).to == 0);
        assert(arc(g, 0, k).cost == -arc(g, 1 + k, 0).cost);
        assert(group_balanced_but(g, k, -1));
        if gc.contains(k) {
            let i = choose|i: int| 0 <= i < gc.len() && gc[i] == k;
            let j = picks[i];
            assert(positions[j] >= 1);
            assert(arc(g, 1 + k, positions[j] as int).capacity == 0);
            assert(arc(g, 0, k).capacity == 0);
            assert(arc(g, 1 + k, 0).capacity == 1);
            assert(pot[1 + k] >= 0);
        } else {
            if arc(g, 0, k).capacity != 1 {
                let at = choose|at: int| #[trigger] group_uses_but(g, k, at, -1);
                assert(arc(g, 1 + k, at).capacity == 0);
                assert(listed_at(edges, positions, k, at));
                let j = choose|j: int|
                    0 <= j < positions.len() && edges[j].group == k && #[trigger] positions[j] == at;
                assert(picks.contains(j));
                let i = choose|i: int| 0 <= i < picks.len() && picks[i] == j;
                assert(gc[i] == k);
                assert(false);
            }
            assert(pot[1 + k] <= 0);
        }
    }
    lemma_total_le(masked(go, pg), masked(gc, pg));
    lemma_sum_at_shift(so, ps, sigma, hs);
    lemma_sum_at_shift(sc, ps, sigma, hs);
    lemma_sum_at_masked(so, hs);
    lemma_sum_at_masked(sc, hs);
    assert forall|s: int| 0 <= s < hs.len() implies masked(sc, hs)[s] <= masked(so, hs)[s] by {
        let row = 1 + groups + s;
        assert(slot_row(g, groups, slots, slots, s));
        assert(has_arc(g, row, 0));
        assert(arc(g, row, 0).to == sink && arc(g, row, 0).reverse == s);
        assert(has_arc(g, sink, s));
        assert(slot_balanced(g, groups, s));
        if sc.contains(s) {
            let i = choose|i: int| 0 <= i < sc.len() && sc[i] == s;
            let j = picks[i];
            assert(positions[j] >= 1);
            let k = edges[j].group as int;
            let f = arc(g, 1 + k, positions[j] as int);
            assert(has_arc(g, 1 + k, positions[j] as int));
            assert(has_arc(g, row, f.reverse as int));
            assert(arc(g, row, f.reverse as int).capacity == 1);
            assert(group_row(g, groups, slots, groups, k));
            assert(f.reverse >= 1);
            assert(arc(g, row, 0).capacity == 0);
            assert(arc(g, sink, s).capacity == 1);
            assert(hs[s] <= 0);
        } else {
            if arc(g, row, 0).capacity != 1 {
                let at = choose|at: int| #[trigger] slot_fed(g, groups, s, at);
                assert(has_arc(g, row, at));
                let back = arc(g, row, at);
                let k = back.to - 1;
                assert(has_arc(g, 1 + k, back.reverse as int));
                assert(arc(g, 1 + k, back.reverse as int).capacity == 0);
                assert(listed_at(edges, positions, k, back.reverse as int));
                let j = choose|j: int|
                    0 <= j < positions.len() && edges[j].group == k && #[trigger] positions[j]
                        == back.reverse as int;
                assert(picks.contains(j));
                let i = choose|i: int| 0 <= i < picks.len() && picks[i] == j;
                assert(sc[i] == s);
                assert(false);
            }
            assert(hs[s] >= 0);
        }
    }
    lemma_total_le(masked(sc, hs), masked(so, hs));
    assert(sigma * other.len() >= sigma * chosen.len() && (other.len() < chosen.len() ==> sigma
        * other.len() > sigma * chosen.len())) by (nonlinear_arith)
        requires
            other.len() > chosen.len() ==> sigma >= 0,
            other.len() < chosen.len() ==> sigma < 0,
    ;
}

proof fn lemma_ids_distinct(edges: Seq<MatchEdge>, chosen: Seq<MatchEdge>)
    requires
        is_matching(edges, chosen),
    ensures
        group_ids(chosen).no_duplicates(),
        slot_ids(chosen).no_duplicates(),
{
    assert forall|i: int, j: int| 0 <= i < chosen.len() && 0 <= j < chosen.len() && i != j implies
        group_ids(chosen)[i] != group_ids(chosen)[j] && slot_ids(chosen)[i] != slot_ids(
        chosen,
    )[j] by {
        if i < j {
            assert(chosen[i].group != chosen[j].group);
        } else {
            assert(chosen[j].group != chosen[i].group);
        }
    }
}


// ---------------------------------------------------------------------------------------------
// Matching
// ---------------------------------------------------------------------------------------------

/// The candidate edges given as triples of group, slot, and weight.
pub open spec fn as_edges(edges: Seq<(usize, usize, usize)>) -> Seq<MatchEdge> {
    edges.map_values(
        |e: (usize, usize, usize)| MatchEdge { group: e.0, slot: e.1, weight: e.2 },
    )
}

/// Every candidate edge joins a known group to a known slot.
pub open spec fn within_counts(
    group_count: usize,
    slot_count: usize,
    edges: Seq<(usize, usize, usize)>,
) -> bool {
    forall|i: int|
        0 <= i < edges.len() ==> (#[trigger] edges[i]).0 < group_count && edges[i].1 < slot_count
}

/// Every sum of edge costs along a path stays within the arithmetic range.
pub open spec fn scores_fit(group_count: usize, slot_count: usize, edges: Seq<MatchEdge>) -> bool {
    &&& weight_scale(group_count, slot_count) <= i128::MAX
    &&& forall|i: int|
        0 <= i < edges.len() ==> edge_tie(group_count, #[trigger] edges[i]) <= usize::MAX && (
        group_count + slot_count + 2) * (edges[i].weight * weight_scale(group_count, slot_count)
            + tie_bound(group_count, slot_count)) < i128::MAX
}

/// The weight of the edge cannot be scaled.
pub open spec fn weight_overflows(
    group_count: usize,
    slot_count: usize,
    edge: MatchEdge,
) -> bool {
    edge.weight * weight_scale(group_count, slot_count) > i128::MAX
}

/// The tie-break of the edge cannot be represented.
pub open spec fn tie_overflows(group_count: usize, edge: MatchEdge) -> bool {
    edge_tie(group_count, edge) > usize::MAX
}

/// The cost of the edge cannot be represented.
pub open spec fn is_refused(group_count: usize, slot_count: usize, edge: MatchEdge) -> bool {
    weight_overflows(group_count, slot_count, edge) || tie_overflows(group_count, edge)
}

/// Edge `i` is refused, and none by an earlier slot, or by an earlier group of the same slot, is.
pub open spec fn is_first_refused(
    group_count: usize,
    slot_count: usize,
    edges: Seq<MatchEdge>,
    i: int,
) -> bool {
    &&& 0 <= i < edges.len()
    &&& is_refused(group_count, slot_count, edges[i])
    &&& forall|j: int|
        0 <= j < edges.len() && is_refused(group_count, slot_count, #[trigger] edges[j])
            ==> edges[i].ranks_le(edges[j])
}

/// No two edges join the same group and slot.
pub open spec fn distinct_pairs(edges: Seq<MatchEdge>) -> bool {
    forall|i: int, j: int|
        0 <= i < j < edges.len() ==> (#[trigger] edges[i]).group != (#[trigger] edges[j]).group
            || edges[i].slot != edges[j].slot
}

/// Some edge joins the pair and retains a key.
pub open spec fn retains_keys(edges: Seq<MatchEdge>, pair: (usize, usize)) -> bool {
    exists|e: int|
        0 <= e < edges.len() && (#[trigger] edges[e]).group == pair.0 && edges[e].slot == pair.1
            && edges[e].weight > 0
}

/// With distinct pairs there is one first refused edge.
proof fn lemma_first_refused_unique(
    group_count: usize,
    slot_count: usize,
    edges: Seq<MatchEdge>,
    i: int,
    j: int,
)
    requires
        distinct_pairs(edges),
        is_first_refused(group_count, slot_count, edges, i),
        is_first_refused(group_count, slot_count, edges, j),
    ensures
        i == j,
{
    assert(edges[i].ranks_le(edges[j]));
    assert(edges[j].ranks_le(edges[i]));
    if i < j {
        assert(edges[i].group != edges[j].group || edges[i].slot != edges[j].slot);
    }
    if j < i {
        assert(edges[j].group != edges[i].group || edges[j].slot != edges[i].slot);
    }
}

/// The first refused edge in sorted order is the first refused one.
proof fn lemma_refused_first(
    group_count: usize,
    slot_count: usize,
    given: Seq<MatchEdge>,
    sorted: Seq<MatchEdge>,
    at: int,
    i: int,
)
    requires
        ranked(sorted),
        forall|x: MatchEdge| #[trigger] sorted.contains(x) <==> given.contains(x),
        0 <= at < sorted.len(),
        0 <= i < given.len(),
        given[i] == sorted[at],
        is_refused(group_count, slot_count, sorted[at]),
        forall|q: int| 0 <= q < at ==> !is_refused(group_count, slot_count, #[trigger] sorted[q]),
    ensures
        is_first_refused(group_count, slot_count, given, i),
        distinct_pairs(given) ==> forall|j: int| #[trigger]
            is_first_refused(group_count, slot_count, given, j) ==> j == i,
{
    assert forall|j: int|
        0 <= j < given.len() && is_refused(
            group_count,
            slot_count,
            #[trigger] given[j],
        ) implies given[i].ranks_le(given[j]) by {
        assert(given.contains(given[j]));
        assert(sorted.contains(given[j]));
        let q = choose|q: int| 0 <= q < sorted.len() && sorted[q] == given[j];
        if q > at {
            assert(sorted[at].ranks_le(sorted[q]));
        }
    }
    if distinct_pairs(given) {
        assert forall|j: int| #[trigger]
            is_first_refused(group_count, slot_count, given, j) implies j == i by {
            lemma_first_refused_unique(group_count, slot_count, given, i, j);
        }
    }
}

proof fn lemma_cost_removed(
    group_count: usize,
    slot_count: usize,
    chosen: Seq<MatchEdge>,
    i: int,
)
    requires
        0 <= i < chosen.len(),
    ensures
        matching_cost(group_count, slot_count, chosen) == matching_cost(
            group_count,
            slot_count,
            chosen.remove(i),
        ) + edge_cost(group_count, slot_count, chosen[i]),
    decreases chosen.len(),
{
    let last = chosen.len() - 1;
    if i == last {
        assert(chosen.remove(i) =~= chosen.drop_last());
    } else {
        lemma_cost_removed(group_count, slot_count, chosen.drop_last(), i);
        assert(chosen.remove(i).drop_last() =~= chosen.drop_last().remove(i));
        assert(chosen.remove(i).last() == chosen.last());
    }
}

/// Every edge of a cheapest matching retains a key.
pub proof fn lemma_matched_retain(
    group_count: usize,
    slot_count: usize,
    edges: Seq<MatchEdge>,
    chosen: Seq<MatchEdge>,
)
    requires
        is_cheapest_matching(group_count, slot_count, edges, chosen),
    ensures
        forall|i: int| 0 <= i < chosen.len() ==> (#[trigger] chosen[i]).weight > 0,
{
    assert forall|i: int| 0 <= i < chosen.len() implies (#[trigger] chosen[i]).weight > 0 by {
        let other = chosen.remove(i);
        assert forall|j: int| 0 <= j < other.len() implies edges.contains(#[trigger] other[j]) by {
            let k = if j < i { j } else { j + 1 };
            assert(other[j] == chosen[k]);
        }
        assert forall|j: int, k: int| 0 <= j < k < other.len() implies (#[trigger] other[j]).group
            != (#[trigger] other[k]).group && other[j].slot != other[k].slot by {
            let a = if j < i { j } else { j + 1 };
            let b = if k < i { k } else { k + 1 };
            assert(other[j] == chosen[a] && other[k] == chosen[b]);
        }
        assert(is_matching(edges, other));
        lemma_cost_removed(group_count, slot_count, chosen, i);
        let edge = chosen[i];
        assert(edge_cost(group_count, slot_count, edge) < 0);
        assert(edge.slot * (group_count + 1) >= 0) by (nonlinear_arith);
        if edge.weight == 0 {
            assert(edge.weight * weight_scale(group_count, slot_count) == 0) by (nonlinear_arith)
                requires
                    edge.weight == 0,
            ;
        }
    }
}

proof fn lemma_scale(group_count: usize, slot_count: usize)
    ensures
        tie_bound(group_count, slot_count) >= 0,
        tie_bound(group_count, slot_count) <= usize::MAX,
        pair_bound(group_count, slot_count) >= 1,
        weight_scale(group_count, slot_count) > tie_bound(group_count, slot_count),
{
    assert(slot_count * (group_count + 1) >= 0) by (nonlinear_arith);
    let t = tie_bound(group_count, slot_count) + 1;
    let p = pair_bound(group_count, slot_count);
    assert(t * p >= t) by (nonlinear_arith)
        requires
            t >= 0,
            p >= 1,
    ;
}

proof fn lemma_tie_within_bound(group_count: usize, slot_count: usize, edge: MatchEdge)
    requires
        edge.group < group_count,
        edge.slot < slot_count,
        edge_tie(group_count, edge) <= usize::MAX,
    ensures
        0 <= edge_tie(group_count, edge) <= tie_bound(group_count, slot_count),
{
    assert(0 <= edge.slot * (group_count + 1)) by (nonlinear_arith);
    assert(edge.slot * (group_count + 1) <= slot_count * (group_count + 1)) by (nonlinear_arith)
        requires
            edge.slot <= slot_count,
    ;
}

/// A search that has settled goes back along the path where that pays, else it is done.
proof fn lemma_step_settled(start: FlowState, sink: int, a: FlowState)
    requires
        reaches(start, sink, a),
        a.phase is Seek,
        a.queue.len() == 0,
        0 <= sink <= usize::MAX,
    ensures
        a.dist[sink] >= 0 ==> reaches(
            start,
            sink,
            (FlowState { phase: FlowPhase::Done, ..a }),
        ),
        a.dist[sink] < 0 ==> reaches(
            start,
            sink,
            (FlowState { phase: FlowPhase::Trace(sink as usize), ..a }),
        ),
{
    reveal(stepped);
    lemma_reaches_step(start, sink, a);
}

/// A search that came back to the source starts over.
proof fn lemma_step_restart(start: FlowState, sink: int, a: FlowState)
    requires
        reaches(start, sink, a),
        a.phase == FlowPhase::Trace(0),
    ensures
        reaches(start, sink, started(a.rows)),
{
    reveal(stepped);
    lemma_reaches_step(start, sink, a);
}

/// The search comes to its end with this flow.
pub open spec fn ends_at(start: FlowState, sink: int, rows: Seq<Seq<FlowEdge>>) -> bool {
    exists|end: FlowState| #[trigger]
        reaches(start, sink, end) && end.phase is Done && end.rows == rows
}

/// The edges by ascending slot and group.
pub open spec fn is_order_of(edges: Seq<MatchEdge>, sorted: Seq<MatchEdge>) -> bool {
    ranked(sorted) && sorted.to_multiset() == edges.to_multiset()
}

/// The search over the ordered edges comes to this flow, and the pairs list it.
pub open spec fn flow_gives(
    group_count: usize,
    slot_count: usize,
    sorted: Seq<MatchEdge>,
    rows: Seq<Seq<FlowEdge>>,
    pairs: Seq<(usize, usize)>,
) -> bool {
    &&& ends_at(
        started(edge_links(group_count, slot_count, sorted, sorted.len() as int)),
        1 + group_count + slot_count,
        rows,
    )
    &&& lists_flow(rows, group_count, pairs)
}

/// The search over the ordered edges comes to a path cost that cannot be represented.
pub open spec fn flow_overflows(
    group_count: usize,
    slot_count: usize,
    sorted: Seq<MatchEdge>,
) -> bool {
    overflows(
        started(edge_links(group_count, slot_count, sorted, sorted.len() as int)),
        1 + group_count + slot_count,
    )
}

/// The pairs are what the search over the ordered edges gives.
pub open spec fn is_searched(
    group_count: usize,
    slot_count: usize,
    edges: Seq<MatchEdge>,
    pairs: Seq<(usize, usize)>,
) -> bool {
    exists|sorted: Seq<MatchEdge>, rows: Seq<Seq<FlowEdge>>|
        is_order_of(edges, sorted) && #[trigger] flow_gives(
            group_count,
            slot_count,
            sorted,
            rows,
            pairs,
        )
}

/// The search over the ordered edges comes to a path cost that cannot be represented.
pub open spec fn search_overflows(
    group_count: usize,
    slot_count: usize,
    edges: Seq<MatchEdge>,
) -> bool {
    exists|sorted: Seq<MatchEdge>|
        is_order_of(edges, sorted) && #[trigger] flow_overflows(group_count, slot_count, sorted)
}

/// Matching the edges stops with `error`: the scale, the first edge whose cost cannot be
/// represented, or a path cost is out of range.
pub open spec fn pairing_fails(
    group_count: usize,
    slot_count: usize,
    edges: Seq<MatchEdge>,
    error: AtlasError,
) -> bool {
    let scaled = weight_scale(group_count, slot_count) <= i128::MAX;
    &&& !scores_fit(group_count, slot_count, edges)
    &&& {
        ||| !scaled && error == AtlasError::MatchingScoreOverflow
        ||| scaled && exists|i: int| #[trigger]
            is_first_refused(group_count, slot_count, edges, i) && error == (if weight_overflows(
                group_count,
                slot_count,
                edges[i],
            ) {
                AtlasError::MatchingWeightOverflow
            } else {
                AtlasError::MatchingTieOverflow
            })
        ||| {
            &&& scaled
            &&& none_refused(group_count, slot_count, edges)
            &&& error == AtlasError::MatchingPathOverflow
            &&& search_overflows(group_count, slot_count, edges)
        }
    }
}

/// Every edge's cost can be represented.
pub open spec fn none_refused(
    group_count: usize,
    slot_count: usize,
    edges: Seq<MatchEdge>,
) -> bool {
    forall|i: int|
        0 <= i < edges.len() ==> !is_refused(group_count, slot_count, #[trigger] edges[i])
}

/// What matching comes to is what the search over the ordered edges comes to.
pub open spec fn follows_flow(
    group_count: usize,
    slot_count: usize,
    edges: Seq<MatchEdge>,
    r: Result<Vec<(usize, usize)>, AtlasError>,
) -> bool {
    match r {
        Ok(pairs) => is_searched(group_count, slot_count, edges, pairs@),
        Err(e) => e == AtlasError::MatchingPathOverflow ==> search_overflows(
            group_count,
            slot_count,
            edges,
        ),
    }
}

proof fn lemma_follows_flow(
    group_count: usize,
    slot_count: usize,
    edges: Seq<MatchEdge>,
    sorted: Seq<MatchEdge>,
    rows: Seq<Seq<FlowEdge>>,
    pairs: Vec<(usize, usize)>,
)
    requires
        is_order_of(edges, sorted),
        flow_gives(group_count, slot_count, sorted, rows, pairs@),
    ensures
        follows_flow(group_count, slot_count, edges, Ok::<Vec<(usize, usize)>, AtlasError>(pairs)),
{
    let r = Ok::<Vec<(usize, usize)>, AtlasError>(pairs);
    assert(r->Ok_0 == pairs);
    assert(exists|other: Seq<MatchEdge>, flow: Seq<Seq<FlowEdge>>|
        is_order_of(edges, other) && #[trigger] flow_gives(
            group_count,
            slot_count,
            other,
            flow,
            pairs@,
        ));
}

/// Minimum-cost matching of groups to slots.
///
/// Weights are encoded as negative costs scaled above any tie-break contribution; paths are
/// augmented while they remain profitable.
#[verifier::spinoff_prover]
#[verifier::rlimit(80)]
pub fn min_cost_positive_matching(
    group_count: usize,
    slot_count: usize,
    edges: &[(usize, usize, usize)],
) -> (r: Result<Vec<(usize, usize)>, AtlasError>)
    requires
        group_count + slot_count + 2 <= usize::MAX,
        within_counts(group_count, slot_count, edges@),
    ensures
        r matches Ok(pairs) ==> exists|chosen: Seq<MatchEdge>|
            {
                &&& #[trigger] is_cheapest_matching(
                    group_count,
                    slot_count,
                    as_edges(edges@),
                    chosen,
                )
                &&& lists_pairs(chosen, pairs@)
            },
        scores_fit(group_count, slot_count, as_edges(edges@)) ==> r is Ok,
        r == Err::<Vec<(usize, usize)>, AtlasError>(AtlasError::MatchingScoreOverflow)
            <==> weight_scale(group_count, slot_count) > i128::MAX,
        r matches Err(e) ==> e == AtlasError::MatchingScoreOverflow || e
            == AtlasError::MatchingWeightOverflow || e == AtlasError::MatchingTieOverflow || e
            == AtlasError::MatchingPathOverflow,
        r matches Ok(pairs) ==> forall|p: int|
            0 <= p < pairs@.len() ==> retains_keys(as_edges(edges@), #[trigger] pairs@[p]),
        follows_flow(group_count, slot_count, as_edges(edges@), r),
        r is Ok || r == Err::<Vec<(usize, usize)>, AtlasError>(AtlasError::MatchingPathOverflow)
            ==> forall|i: int|
            0 <= i < edges@.len() ==> !is_refused(
                group_count,
                slot_count,
                #[trigger] as_edges(edges@)[i],
            ),
        r == Err::<Vec<(usize, usize)>, AtlasError>(AtlasError::MatchingWeightOverflow) ==> exists|
            i: int,
        | #[trigger]
            is_first_refused(group_count, slot_count, as_edges(edges@), i) && weight_overflows(
                group_count,
                slot_count,
                as_edges(edges@)[i],
            ),
        r == Err::<Vec<(usize, usize)>, AtlasError>(AtlasError::MatchingTieOverflow) ==> exists|
            i: int,
        | #[trigger]
            is_first_refused(group_count, slot_count, as_edges(edges@), i) && !weight_overflows(
                group_count,
                slot_count,
                as_edges(edges@)[i],
            ),
        distinct_pairs(as_edges(edges@)) && weight_scale(group_count, slot_count) <= i128::MAX
            ==> forall|i: int| #[trigger]
            is_first_refused(group_count, slot_count, as_edges(edges@), i) ==> r == Err::<
                Vec<(usize, usize)>,
                AtlasError,
            >(
                if weight_overflows(group_count, slot_count, as_edges(edges@)[i]) {
                    AtlasError::MatchingWeightOverflow
                } else {
                    AtlasError::MatchingTieOverflow
                },
            ),
{
    let ghost groups = group_count as int;
    let ghost slots = slot_count as int;
    let group_base: usize = 1;
    let slot_base: usize = group_base + group_count;
    let sink: usize = slot_base + slot_count;
    let n: usize = sink + 1;
    proof {
        lemma_scale(group_count, slot_count);
    }
    let mut graph: Vec<Vec<FlowEdge>> = Vec::new();
    let mut filled: usize = 0;
    while filled < n
        invariant
            filled <= n,
            graph@.len() == filled,
            forall|u: int| 0 <= u < filled ==> (#[trigger] graph@[u])@.len() == 0,
        decreases n - filled,
    {
        graph.push(Vec::new());
        filled = filled + 1;
    }
    proof {
        assert forall|k: int| 0 <= k < groups implies #[trigger] group_row(graph@, groups, slots, 0, k) by {
            assert(graph@[1 + k]@.len() == 0);
        }
        assert forall|s: int| 0 <= s < slots implies #[trigger] slot_row(graph@, groups, slots, 0, s) by {
            assert(graph@[1 + groups + s]@.len() == 0);
        }
        assert forall|k: int, i: int| 0 <= k < groups && 1 <= i < graph@[1 + k]@.len() implies (
        #[trigger] arc(graph@, 1 + k, i)).capacity == 1 by {
            assert(graph@[1 + k]@.len() == 0);
        }
        assert(graph@[0]@.len() == 0);
        assert(graph@[1 + groups + slots]@.len() == 0);
    }
    let mut group: usize = 0;
    assert(rows_of(graph@) =~= group_links(n as nat, 0)) by {
        assert forall|u: int| 0 <= u < n implies #[trigger] rows_of(graph@)[u] == group_links(
            n as nat,
            0,
        )[u] by {
            assert(graph@[u]@ =~= Seq::empty());
        }
    }
    while group < group_count
        invariant
            group <= group_count,
            groups == group_count,
            slots == slot_count,
            n == groups + slots + 2,
            rows_of(graph@) == group_links(n as nat, group as int),
            group_base == 1,
            shaped(graph@, groups, slots, group as int, 0),
            paired(graph@),
            unused(graph@, groups, slots),
            bare(graph@, groups),
        decreases group_count - group,
    {
        let ghost before = graph@;
        add_flow_edge(&mut graph, 0, group_base + group, 1, 0);
        proof {
            assert(group_row(before, groups, slots, group as int, group as int));
            assert(extended(before, graph@, 0, 1 + group, 0));
            lemma_source_linked(before, graph@, groups, slots, group as int);
            lemma_linked_rows(before, graph@, 0, 1 + group, 0);
            lemma_bare_kept(before, graph@, groups, 0, 1 + group);
        }
        group = group + 1;
    }
    let mut slot: usize = 0;
    while slot < slot_count
        invariant
            slot <= slot_count,
            groups == group_count,
            slots == slot_count,
            n == groups + slots + 2,
            slot_base == 1 + group_count,
            sink == slot_base + slot_count,
            rows_of(graph@) == slot_links(groups, slots, slot as int),
            shaped(graph@, groups, slots, groups, slot as int),
            paired(graph@),
            unused(graph@, groups, slots),
            bare(graph@, groups),
        decreases slot_count - slot,
    {
        let ghost before = graph@;
        add_flow_edge(&mut graph, slot_base + slot, sink, 1, 0);
        proof {
            assert(slot_row(before, groups, slots, slot as int, slot as int));
            assert(extended(before, graph@, 1 + groups + slot, sink as int, 0));
            lemma_sink_linked(before, graph@, groups, slots, slot as int);
            lemma_linked_rows(before, graph@, 1 + groups + slot, sink as int, 0);
            lemma_bare_kept(before, graph@, groups, 1 + groups + slot, sink as int);
        }
        slot = slot + 1;
    }
    let least: usize = if group_count < slot_count {
        group_count
    } else {
        slot_count
    };
    let max_pairs: i128 = if least < 1 {
        1
    } else {
        least as i128
    };
    let clamped: usize = match slot_count.checked_mul(group_count + 1) {
        Some(product) => product,
        None => usize::MAX,
    };
    let max_tie: i128 = clamped.saturating_add(group_count) as i128;
    assert(max_tie == tie_bound(group_count, slot_count));
    let scale: i128 = match (max_tie + 1).checked_mul(max_pairs) {
        Some(value) => match value.checked_add(1) {
            Some(scale) => scale,
            None => {
                return Err(AtlasError::MatchingScoreOverflow);
            },
        },
        None => {
            return Err(AtlasError::MatchingScoreOverflow);
        },
    };
    assert(scale == weight_scale(group_count, slot_count));

    let mut listed: Vec<MatchEdge> = Vec::new();
    let mut copied: usize = 0;
    while copied < edges.len()
        invariant
            copied <= edges.len(),
            listed@ == as_edges(edges@).take(copied as int),
        decreases edges.len() - copied,
    {
        let (group, slot, weight) = edges[copied];
        listed.push(MatchEdge { group, slot, weight });
        proof {
            assert(as_edges(edges@).take(copied + 1) =~= as_edges(edges@).take(copied as int).push(
                as_edges(edges@)[copied as int],
            ));
        }
        copied = copied + 1;
    }
    assert(listed@ =~= as_edges(edges@));
    let sorted = sort_ranked(listed);
    proof {
        assert forall|i: int| 0 <= i < sorted@.len() implies (#[trigger] sorted@[i]).group
            < group_count && sorted@[i].slot < slot_count && as_edges(edges@).contains(sorted@[i]) by {
            assert(sorted@.contains(sorted@[i]));
            assert(as_edges(edges@).contains(sorted@[i]));
            let j = choose|j: int| 0 <= j < as_edges(edges@).len() && as_edges(edges@)[j] == sorted@[i];
            assert(edges@[j].0 < group_count);
        }
    }

    let mut positions: Vec<usize> = Vec::new();
    let ghost bound: int = (i128::MAX - 1) / (n as int);
    let ghost fit = scores_fit(group_count, slot_count, as_edges(edges@));
    proof {
        assert forall|k: int, i: int|
            0 <= k < group_count && 1 <= i < graph@[1 + k]@.len() implies #[trigger] listed_at(
            sorted@,
            positions@,
            k,
            i,
        ) by {
            assert(graph@[1 + k]@.len() <= 1);
        }
        assert(bound >= 0) by (nonlinear_arith)
            requires
                bound == (i128::MAX - 1) / (n as int),
                n >= 2,
        ;
        assert(small_costs(graph@, bound));
    }
    let mut at: usize = 0;
    while at < sorted.len()
        invariant
            at <= sorted.len(),
            groups == group_count,
            slots == slot_count,
            n == groups + slots + 2,
            group_base == 1,
            slot_base == 1 + group_count,
            sink == slot_base + slot_count,
            scale == weight_scale(group_count, slot_count),
            scale > tie_bound(group_count, slot_count),
            bound == (i128::MAX - 1) / (n as int),
            fit == scores_fit(group_count, slot_count, as_edges(edges@)),
            forall|i: int|
                0 <= i < sorted@.len() ==> (#[trigger] sorted@[i]).group < group_count
                    && sorted@[i].slot < slot_count && as_edges(edges@).contains(sorted@[i]),
            rows_of(graph@) == edge_links(group_count, slot_count, sorted@, at as int),
            shaped(graph@, groups, slots, groups, slots),
            paired(graph@),
            unused(graph@, groups, slots),
            positions@.len() == at,
            placed(graph@, group_count, slot_count, sorted@, positions@),
            fit ==> small_costs(graph@, bound),
            ranked(sorted@),
            forall|x: MatchEdge| #[trigger]
                sorted@.contains(x) <==> as_edges(edges@).contains(x),
            forall|q: int|
                0 <= q < at ==> !is_refused(group_count, slot_count, #[trigger] sorted@[q]),
        decreases sorted.len() - at,
    {
        let edge = sorted[at];
        let ghost source_at: int = {
            let j = choose|j: int|
                0 <= j < as_edges(edges@).len() && as_edges(edges@)[j] == sorted@[at as int];
            j
        };
        proof {
            assert(as_edges(edges@).contains(sorted@[at as int]));
            assert(as_edges(edges@)[source_at] == edge);
            assert(edges@[source_at].2 == edge.weight);
            if is_refused(group_count, slot_count, edge) {
                lemma_refused_first(
                    group_count,
                    slot_count,
                    as_edges(edges@),
                    sorted@,
                    at as int,
                    source_at,
                );
            }
            assert(0 <= edge.weight * scale) by (nonlinear_arith)
                requires
                    edge.weight >= 0,
                    scale >= 0,
            ;
        }
        let primary: i128 = match (edge.weight as i128).checked_mul(scale) {
            Some(primary) => primary,
            None => {
                proof {
                    if fit {
                        lemma_fit_weight(group_count, slot_count, as_edges(edges@), source_at);
                    }
                }
                assert(is_refused(group_count, slot_count, edge));
                return Err(AtlasError::MatchingWeightOverflow);
            },
        };
        let tie: usize = match edge.slot.checked_mul(group_count + 1) {
            Some(value) => match value.checked_add(edge.group) {
                Some(tie) => tie,
                None => {
                    assert(is_refused(group_count, slot_count, edge));
                    return Err(AtlasError::MatchingTieOverflow);
                },
            },
            None => {
                assert(is_refused(group_count, slot_count, edge));
                return Err(AtlasError::MatchingTieOverflow);
            },
        };
        proof {
            lemma_tie_within_bound(group_count, slot_count, edge);
        }
        let cost: i128 = tie as i128 - primary;
        assert(cost == edge_cost(group_count, slot_count, edge));
        let ghost before = graph@;
        let ghost positions_before = positions@;
        let position: usize = add_flow_edge(
            &mut graph,
            group_base + edge.group,
            slot_base + edge.slot,
            1,
            cost,
        );
        positions.push(position);
        proof {
            let from = 1 + edge.group as int;
            let to = 1 + groups + edge.slot as int;
            assert(extended(before, graph@, from, to, cost));
            assert(before[from]@.len() == before[from].len());
            assert(before[to]@.len() == before[to].len());
            lemma_pair_linked(before, graph@, groups, slots, edge.group as int, edge.slot as int, cost);
            lemma_linked_rows(before, graph@, from, to, cost);
            lemma_extended(before, graph@, from, to, cost);
            assert(group_row(before, groups, slots, groups, edge.group as int));
            lemma_placed(
                before,
                graph@,
                group_count,
                slot_count,
                sorted@,
                positions_before,
                positions@,
                cost,
            );
            if fit {
                lemma_fit_weight(group_count, slot_count, as_edges(edges@), source_at);
                assert forall|u: int, i: int|
                    #![trigger arc(graph@, u, i)]
                    has_arc(graph@, u, i) implies arc(graph@, u, i).cost <= bound by {
                    if has_arc(before, u, i) {
                        assert(arc(before, u, i).cost <= bound);
                    } else {
                        if u != from && u != to {
                            assert(graph@[u] == before[u]);
                        }
                    }
                }
            }
        }
        at = at + 1;
    }
    let ghost g0 = graph@;
    let ghost mut pot: Seq<int> = Seq::new(
        n as nat,
        |v: int|
            if v <= groups {
                0
            } else {
                i128::MIN as int
            },
    );
    let ghost mut high: Seq<int> = pot;
    proof {
        lemma_initial_flow(g0, groups, slots, pot);
        assert forall|i: int| 0 <= i < edges@.len() implies !is_refused(
            group_count,
            slot_count,
            #[trigger] as_edges(edges@)[i],
        ) by {
            assert(as_edges(edges@).contains(as_edges(edges@)[i]));
            assert(sorted@.contains(as_edges(edges@)[i]));
        }
    }
    let ghost first = started(rows_of(g0));
    proof {
        lemma_reaches_itself(first, sink as int);
    }
    let mut done = false;
    while !done
        invariant
            !done ==> reaches(first, sink as int, started(rows_of(graph@))),
            done ==> ends_at(first, sink as int, rows_of(graph@)),
            first == started(
                edge_links(group_count, slot_count, sorted@, sorted@.len() as int),
            ),
            is_order_of(as_edges(edges@), sorted@),
            groups == group_count,
            slots == slot_count,
            n == groups + slots + 2,
            sink == 1 + groups + slots,
            bound == (i128::MAX - 1) / (n as int),
            fit ==> small_costs(g0, bound),
            same_arcs(g0, graph@),
            shaped(graph@, groups, slots, groups, slots),
            paired(graph@),
            balanced(graph@, groups, slots),
            feasible(graph@, groups, pot),
            forall|v: int| 0 <= v < pot.len() ==> #[trigger] pot[v] >= i128::MIN,
            pot[sink as int] < 0,
            done ==> feasible(graph@, groups, high) && high[sink as int] >= 0,
            source_capacity(graph@) >= 0,
            forall|i: int|
                0 <= i < edges@.len() ==> !is_refused(
                    group_count,
                    slot_count,
                    #[trigger] as_edges(edges@)[i],
                ),
            scale == weight_scale(group_count, slot_count),
            fit == scores_fit(group_count, slot_count, as_edges(edges@)),
        decreases source_capacity(graph@), (if done { 0int } else { 1 }),
    {
        proof {
            assert(bound >= 0) by (nonlinear_arith)
                requires
                    bound == (i128::MAX - 1) / (n as int),
                    n >= 2,
            ;
            assert(n * bound <= i128::MAX - 1) by (nonlinear_arith)
                requires
                    bound == (i128::MAX - 1) / (n as int),
                    n >= 2,
            ;
            if fit {
                assert forall|u: int, i: int|
                    #![trigger arc(graph@, u, i)]
                    has_arc(graph@, u, i) implies arc(graph@, u, i).cost <= bound by {
                    assert(g0[u]@.len() == graph@[u]@.len());
                    assert(has_arc(g0, u, i));
                    assert(arc(g0, u, i).cost <= bound);
                }
            }
        }
        let found = shortest_paths(
            &graph,
            Ghost(groups),
            Ghost(pot),
            Ghost(bound),
            Ghost(sink as int),
        );
        let paths = match found {
            Ok(paths) => paths,
            Err(e) => {
                proof {
                    let here = started(rows_of(graph@));
                    let end = choose|end: FlowState| #[trigger]
                        reaches(here, sink as int, end) && end.phase is Overflow;
                    lemma_reaches_on(first, sink as int, here, end);
                    assert(reaches(first, sink as int, end));
                    assert(flow_overflows(group_count, slot_count, sorted@));
                }
                return Err(e);
            },
        };
        let ghost next = lemma_new_potential(graph@, groups, slots, pot, paths);
        let ghost settled_at = {
            let queued = choose|queued: Seq<bool>| #[trigger]
                searched(
                    rows_of(graph@),
                    sink as int,
                    paths.distance@,
                    paths.predecessor@,
                    queued,
                );
            flow_at(
                rows_of(graph@),
                paths.distance@,
                paths.predecessor@,
                queued,
                Seq::empty(),
                FlowPhase::Seek,
            )
        };
        proof {
            lemma_reaches_on(first, sink as int, started(rows_of(graph@)), settled_at);
        }
        if paths.distance[sink] >= 0 {
            done = true;
            proof {
                high = next;
                lemma_step_settled(first, sink as int, settled_at);
                let end = FlowState { phase: FlowPhase::Done, ..settled_at };
                assert(reaches(first, sink as int, end));
            }
        } else {
            let ghost before = graph@;
            let ghost stood = FlowState { phase: FlowPhase::Trace(sink), ..settled_at };
            augment(
                &mut graph,
                &paths,
                sink,
                Ghost(groups),
                Ghost(slots),
                Ghost(pot),
                Ghost(next),
                Ghost(stood),
            );
            proof {
                lemma_step_settled(first, sink as int, settled_at);
                let traced = FlowState {
                    rows: rows_of(graph@),
                    phase: FlowPhase::Trace(0),
                    ..stood
                };
                lemma_reaches_on(first, sink as int, stood, traced);
                lemma_step_restart(first, sink as int, traced);
                pot = next;
                lemma_same_arcs_transitive(g0, before, graph@);
                lemma_source_capacity_nonneg(graph@);
            }
        }
    }

    let mut pairs: Vec<(usize, usize)> = Vec::new();
    let ghost mut picks: Seq<int> = seq![];
    let ghost mut chosen: Seq<MatchEdge> = seq![];
    let mut j: usize = 0;
    proof {
        lemma_placed_kept(g0, graph@, group_count, slot_count, sorted@, positions@);
    }
    while j < positions.len()
        invariant
            j <= positions.len(),
            positions@.len() == sorted@.len(),
            group_base == 1,
            shaped(graph@, groups, slots, groups, slots),
            groups == group_count,
            slots == slot_count,
            paired(graph@),
            placed(graph@, group_count, slot_count, sorted@, positions@),
            picks.len() == chosen.len(),
            pairs@.len() == chosen.len(),
            forall|i: int|
                0 <= i < picks.len() ==> 0 <= #[trigger] picks[i] < j && chosen[i]
                    == sorted@[picks[i]] && arc(
                    graph@,
                    1 + sorted@[picks[i]].group as int,
                    positions@[picks[i]] as int,
                ).capacity == 0,
            forall|i: int|
                0 <= i < pairs@.len() ==> #[trigger] pairs@[i] == (chosen[i].group, chosen[i].slot),
            forall|a: int, b: int| 0 <= a < b < picks.len() ==> #[trigger] picks[a] < #[trigger] picks[b],
            forall|q: int|
                #![trigger positions@[q]]
                0 <= q < j && arc(
                    graph@,
                    1 + sorted@[q].group as int,
                    positions@[q] as int,
                ).capacity == 0 ==> picks.contains(q),
        decreases positions.len() - j,
    {
        let edge = sorted[j];
        let position: usize = positions[j];
        proof {
            assert(1 <= positions@[j as int] < graph@[1 + edge.group as int]@.len());
            assert(has_arc(graph@, 1 + edge.group as int, position as int));
        }
        let ghost picks_before = picks;
        let ghost pairs_before = pairs@;
        if graph[group_base + edge.group][position].capacity == 0 {
            pairs.push((edge.group, edge.slot));
            proof {
                picks = picks.push(j as int);
                chosen = chosen.push(edge);
                assert(picks[picks_before.len() as int] == j);
                assert(arc(graph@, 1 + edge.group as int, position as int).capacity == 0);
            }
        }
        proof {
            assert forall|q: int|
                #![trigger positions@[q]]
                0 <= q < j + 1 && arc(
                    graph@,
                    1 + sorted@[q].group as int,
                    positions@[q] as int,
                ).capacity == 0 implies picks.contains(q) by {
                if q < j {
                    assert(picks_before.contains(q));
                    let i = choose|i: int| 0 <= i < picks_before.len() && picks_before[i] == q;
                    assert(picks[i] == q);
                } else {
                    assert(picks[picks_before.len() as int] == q);
                }
            }
        }
        j = j + 1;
    }
    let result = sort_ranked(pairs);
    proof {
        let given = as_edges(edges@);
        lemma_chosen_matching(graph@, group_count, slot_count, sorted@, positions@, picks, chosen);
        assert forall|other: Seq<MatchEdge>| #[trigger] is_matching(given, other) implies {
            &&& matching_cost(group_count, slot_count, chosen) <= matching_cost(
                group_count,
                slot_count,
                other,
            )
            &&& other.len() < chosen.len() ==> matching_cost(group_count, slot_count, chosen)
                < matching_cost(group_count, slot_count, other)
        } by {
            assert(is_matching(sorted@, other)) by {
                assert forall|i: int| 0 <= i < other.len() implies sorted@.contains(
                    #[trigger] other[i],
                ) by {
                    assert(given.contains(other[i]));
                }
            }
            let certificate = if other.len() > chosen.len() { high } else { pot };
            lemma_cheapest(
                graph@,
                group_count,
                slot_count,
                sorted@,
                positions@,
                picks,
                chosen,
                certificate,
                other,
            );
        }
        assert(is_matching(given, chosen)) by {
            assert forall|i: int| 0 <= i < chosen.len() implies given.contains(
                #[trigger] chosen[i],
            ) by {
                assert(sorted@.contains(chosen[i]));
            }
        }
        assert(is_cheapest_matching(group_count, slot_count, given, chosen));
        lemma_lists_pairs(sorted@, chosen, pairs@, result@);
        lemma_matched_retain(group_count, slot_count, given, chosen);
        lemma_lists_flow(
            graph@,
            group_count,
            slot_count,
            sorted@,
            positions@,
            picks,
            chosen,
            result@,
        );
        assert(is_order_of(given, sorted@));
        assert(flow_gives(group_count, slot_count, sorted@, rows_of(graph@), result@));
        lemma_follows_flow(
            group_count,
            slot_count,
            given,
            sorted@,
            rows_of(graph@),
            result,
        );
        assert forall|p: int| 0 <= p < result@.len() implies retains_keys(
            given,
            #[trigger] result@[p],
        ) by {
            assert(takes_pair(chosen, result@[p]));
            let k = choose|k: int|
                0 <= k < chosen.len() && (#[trigger] chosen[k]).group == result@[p].0
                    && chosen[k].slot == result@[p].1;
            assert(given.contains(chosen[k]));
            let e = choose|e: int| 0 <= e < given.len() && given[e] == chosen[k];
            assert(given[e].weight > 0);
        }
    }
    Ok(result)
}

/// Only cost-free arcs so far, and none from a group to a slot.
spec fn bare(g: Seq<Vec<FlowEdge>>, groups: int) -> bool {
    &&& forall|u: int, i: int|
        #![trigger arc(g, u, i)]
        has_arc(g, u, i) ==> arc(g, u, i).cost == 0
    &&& forall|k: int| 0 <= k < groups ==> (#[trigger] g[1 + k])@.len() <= 1
}

proof fn lemma_bare_kept(
    a: Seq<Vec<FlowEdge>>,
    b: Seq<Vec<FlowEdge>>,
    groups: int,
    from: int,
    to: int,
)
    requires
        bare(a, groups),
        0 <= groups < a.len(),
        0 <= from < a.len(),
        0 <= to < a.len(),
        from != to,
        extended(a, b, from, to, 0),
        1 <= from <= groups ==> a[from]@.len() == 0,
        1 <= to <= groups ==> a[to]@.len() == 0,
    ensures
        bare(b, groups),
{
    assert forall|u: int, i: int|
        #![trigger arc(b, u, i)]
        has_arc(b, u, i) implies arc(b, u, i).cost == 0 by {
        if u != from && u != to {
            assert(b[u] == a[u]);
        }
        if i < a[u]@.len() {
            assert(arc(a, u, i).cost == 0);
        }
    }
    assert forall|k: int| 0 <= k < groups implies (#[trigger] b[1 + k])@.len() <= 1 by {
        assert(a[1 + k]@.len() <= 1);
        if 1 + k != from && 1 + k != to {
            assert(b[1 + k] == a[1 + k]);
        }
    }
}

proof fn lemma_fit_weight(group_count: usize, slot_count: usize, edges: Seq<MatchEdge>, i: int)
    requires
        scores_fit(group_count, slot_count, edges),
        0 <= i < edges.len(),
    ensures
        edges[i].weight * weight_scale(group_count, slot_count) <= i128::MAX,
        edge_tie(group_count, edges[i]) <= usize::MAX,
        edges[i].weight * weight_scale(group_count, slot_count) + tie_bound(
            group_count,
            slot_count,
        ) <= (i128::MAX - 1) / (group_count + slot_count + 2),
{
    lemma_scale(group_count, slot_count);
    let n = group_count + slot_count + 2;
    let w = edges[i].weight as int;
    let scale = weight_scale(group_count, slot_count);
    let x = w * scale + tie_bound(group_count, slot_count);
    assert(w * scale >= 0) by (nonlinear_arith)
        requires
            w >= 0,
            scale >= 0,
    ;
    assert(n * x < i128::MAX);
    assert(x <= (i128::MAX - 1) / n && x <= n * x) by (nonlinear_arith)
        requires
            n >= 2,
            x >= 0,
            n * x <= i128::MAX - 1,
    ;
}

proof fn lemma_placed(
    a: Seq<Vec<FlowEdge>>,
    b: Seq<Vec<FlowEdge>>,
    group_count: usize,
    slot_count: usize,
    edges: Seq<MatchEdge>,
    before: Seq<usize>,
    after: Seq<usize>,
    cost: i128,
)
    requires
        before.len() < edges.len(),
        a.len() <= usize::MAX,
        a.len() == group_count + slot_count + 2,
        paired(a),
        cost > i128::MIN,
        edges[before.len() as int].group < group_count,
        edges[before.len() as int].slot < slot_count,
        a[1 + edges[before.len() as int].group as int]@.len() >= 1,
        a[1 + edges[before.len() as int].group as int]@.len() <= usize::MAX,
        a[1 + group_count + edges[before.len() as int].slot]@.len() <= usize::MAX,
        cost == edge_cost(group_count, slot_count, edges[before.len() as int]),
        placed(a, group_count, slot_count, edges, before),
        extended(
            a,
            b,
            1 + edges[before.len() as int].group as int,
            1 + group_count + edges[before.len() as int].slot,
            cost,
        ),
        after == before.push(a[1 + edges[before.len() as int].group as int]@.len() as usize),
    ensures
        placed(b, group_count, slot_count, edges, after),
{
    let m = before.len() as int;
    let edge = edges[m];
    let from = 1 + edge.group as int;
    let to = 1 + group_count + edge.slot as int;
    lemma_extended(a, b, from, to, cost);
    assert forall|j: int| 0 <= j < after.len() implies edge_placed(
        b,
        group_count,
        slot_count,
        edges[j],
        #[trigger] after[j],
    ) by {
        if j < m {
            assert(after[j] == before[j]);
            assert(1 <= before[j]);
            let at = 1 + edges[j].group as int;
            assert(has_arc(a, at, before[j] as int));
            assert(arc(b, at, before[j] as int) == arc(a, at, before[j] as int));
            if at != from {
                assert(b[at] == a[at]);
            }
        }
    }
    assert forall|i: int, j: int|
        0 <= i < j < after.len() && edges[i].group == edges[j].group implies #[trigger] after[i]
        < #[trigger] after[j] by {
        assert(after[i] == before[i]);
        if j < m {
            assert(after[j] == before[j]);
        } else {
            assert(before[i] < a[from]@.len());
        }
    }
    assert forall|k: int, i: int|
        0 <= k < group_count && 1 <= i < b[1 + k]@.len() implies #[trigger] listed_at(
        edges,
        after,
        k,
        i,
    ) by {
        if 1 + k != from {
            assert(b[1 + k] == a[1 + k]);
        }
        if i < a[1 + k]@.len() {
            assert(arc(a, 1 + k, i) == arc(b, 1 + k, i));
            assert(listed_at(edges, before, k, i));
            let j = choose|j: int|
                0 <= j < before.len() && edges[j].group == k && #[trigger] before[j] == i;
            assert(after[j] == i);
        } else {
            assert(after[m] == i);
        }
    }
}

proof fn lemma_placed_kept(
    a: Seq<Vec<FlowEdge>>,
    b: Seq<Vec<FlowEdge>>,
    group_count: usize,
    slot_count: usize,
    edges: Seq<MatchEdge>,
    positions: Seq<usize>,
)
    requires
        a.len() == group_count + slot_count + 2,
        placed(a, group_count, slot_count, edges, positions),
        same_arcs(a, b),
    ensures
        placed(b, group_count, slot_count, edges, positions),
{
    assert forall|j: int| 0 <= j < positions.len() implies edge_placed(
        b,
        group_count,
        slot_count,
        edges[j],
        #[trigger] positions[j],
    ) by {
        let at = 1 + edges[j].group as int;
        assert(1 <= positions[j]);
        assert(edges[j].group < group_count);
        assert(a[at]@.len() == b[at]@.len());
        assert(has_arc(a, at, positions[j] as int));
        assert(arc(a, at, positions[j] as int).to == arc(b, at, positions[j] as int).to);
    }
    assert forall|k: int, i: int|
        0 <= k < group_count && 1 <= i < b[1 + k]@.len() implies #[trigger] listed_at(
        edges,
        positions,
        k,
        i,
    ) by {
        assert(a[1 + k]@.len() == b[1 + k]@.len());
        assert(listed_at(edges, positions, k, i));
    }
}

proof fn lemma_initial_flow(g: Seq<Vec<FlowEdge>>, groups: int, slots: int, pot: Seq<int>)
    requires
        groups >= 0,
        slots >= 0,
        shaped(g, groups, slots, groups, slots),
        paired(g),
        unused(g, groups, slots),
        pot.len() == g.len(),
        forall|v: int| 0 <= v < pot.len() ==> #[trigger] pot[v] == if v <= groups {
            0
        } else {
            i128::MIN as int
        },
    ensures
        balanced(g, groups, slots),
        feasible(g, groups, pot),
        source_capacity(g) >= 0,
        same_arcs(g, g),
{
    let sink = 1 + groups + slots;
    assert forall|k: int| 0 <= k < groups implies #[trigger] group_balanced_but(g, k, -1) by {
        assert(arc(g, 0, k).capacity == 1);
        assert(group_row(g, groups, slots, groups, k));
    }
    assert forall|s: int| 0 <= s < slots implies #[trigger] slot_balanced(g, groups, s) by {
        assert(slot_row(g, groups, slots, slots, s));
        assert(arc(g, 1 + groups + s, 0).capacity == 1);
        assert forall|i: int| 1 <= i < g[1 + groups + s]@.len() implies (#[trigger] arc(
            g,
            1 + groups + s,
            i,
        )).capacity == 0 by {
            assert(has_arc(g, 1 + groups + s, i));
            let e = arc(g, 1 + groups + s, i);
            let k = e.to - 1;
            assert(has_arc(g, 1 + k, e.reverse as int));
            assert(arc(g, 1 + k, e.reverse as int).capacity == 1);
        }
    }
    assert forall|u: int, i: int|
        #![trigger arc(g, u, i)]
        has_arc(g, u, i) && arc(g, u, i).capacity == 1 implies pot[arc(g, u, i).to as int] <= pot[u]
        + arc(g, u, i).cost by {
        let e = arc(g, u, i);
        assert(has_arc(g, e.to as int, e.reverse as int));
        let r = arc(g, e.to as int, e.reverse as int);
        if u == 0 {
            assert(e.to == 1 + i);
        } else if u <= groups {
            assert(group_row(g, groups, slots, groups, u - 1));
            if i == 0 {
                assert(arc(g, 0, u - 1).cost == 0);
            }
        } else if u < sink {
            let s = u - 1 - groups;
            assert(slot_row(g, groups, slots, slots, s));
            if i >= 1 {
                assert(arc(g, 1 + groups + s, i).capacity == 0) by {
                    assert(slot_balanced(g, groups, s));
                    assert(arc(g, 1 + groups + s, 0).capacity == 1);
                }
            }
        } else {
            assert(arc(g, sink, i).to == 1 + groups + i);
            assert(slot_row(g, groups, slots, slots, i));
            assert(arc(g, 1 + groups + i, 0).capacity == 1);
        }
    }
    assert forall|k: int, i: int|
        0 <= k < groups && 1 <= i < g[1 + k]@.len() && (#[trigger] arc(g, 1 + k, i)).capacity
            == 0 implies pot[arc(g, 1 + k, i).to as int] == pot[1 + k] + arc(g, 1 + k, i).cost by {
        assert(arc(g, 1 + k, i).capacity == 1);
    }
    lemma_source_capacity_nonneg(g);
}

proof fn lemma_source_capacity_nonneg(g: Seq<Vec<FlowEdge>>)
    ensures
        source_capacity(g) >= 0,
{
    lemma_total_nonneg(Seq::new(g[0]@.len(), |k: int| arc(g, 0, k).capacity as int));
}

proof fn lemma_same_arcs_transitive(
    a: Seq<Vec<FlowEdge>>,
    b: Seq<Vec<FlowEdge>>,
    c: Seq<Vec<FlowEdge>>,
)
    requires
        same_arcs(a, b),
        same_arcs(b, c),
    ensures
        same_arcs(a, c),
{
    assert forall|u: int| 0 <= u < a.len() implies (#[trigger] a[u])@.len() == c[u]@.len() by {
        assert(a[u]@.len() == b[u]@.len());
        assert(b[u]@.len() == c[u]@.len());
    }
    assert forall|u: int, i: int|
        #![trigger arc(a, u, i)]
        #![trigger arc(c, u, i)]
        has_arc(a, u, i) implies arc(a, u, i).to == arc(c, u, i).to && arc(a, u, i).reverse == arc(
        c,
        u,
        i,
    ).reverse && arc(a, u, i).cost == arc(c, u, i).cost by {
        assert(a[u]@.len() == b[u]@.len());
        assert(has_arc(b, u, i));
        assert(arc(a, u, i).to == arc(b, u, i).to);
        assert(arc(b, u, i).to == arc(c, u, i).to);
    }
}

proof fn lemma_lists_pairs(
    edges: Seq<MatchEdge>,
    chosen: Seq<MatchEdge>,
    pairs: Seq<(usize, usize)>,
    result: Seq<(usize, usize)>,
)
    requires
        is_matching(edges, chosen),
        pairs.len() == chosen.len(),
        forall|i: int|
            0 <= i < pairs.len() ==> #[trigger] pairs[i] == (chosen[i].group, chosen[i].slot),
        ranked(result),
        result.to_multiset() == pairs.to_multiset(),
    ensures
        lists_pairs(chosen, result),
{
    lemma_same_multiset(result, pairs);
    assert forall|i: int, j: int| 0 <= i < pairs.len() && 0 <= j < pairs.len() && i != j implies !((
    #[trigger] pairs[i]).ranks_le(#[trigger] pairs[j]) && pairs[j].ranks_le(pairs[i])) by {
        if i < j {
            assert(chosen[i].group != chosen[j].group);
        } else {
            assert(chosen[j].group != chosen[i].group);
        }
    }
    lemma_ranked_strict(pairs, result);
    assert forall|i: int| 0 <= i < result.len() implies takes_pair(chosen, #[trigger] result[i]) by {
        assert(result.contains(result[i]));
        assert(pairs.contains(result[i]));
        let k = choose|k: int| 0 <= k < pairs.len() && pairs[k] == result[i];
        assert(chosen[k].group == result[i].0);
    }
    assert forall|k: int| 0 <= k < chosen.len() implies result.contains(
        ((#[trigger] chosen[k]).group, chosen[k].slot),
    ) by {
        assert(pairs.contains(pairs[k]));
    }
    assert forall|i: int, j: int| 0 <= i < j < result.len() implies (#[trigger] result[i]).0 < (
    #[trigger] result[j]).0 by {
        assert(result[i].ranks_le(result[j]));
        if result[i].0 == result[j].0 {
            let a = choose|a: int|
                0 <= a < chosen.len() && (#[trigger] chosen[a]).group == result[i].0
                    && chosen[a].slot == result[i].1;
            let b = choose|b: int|
                0 <= b < chosen.len() && (#[trigger] chosen[b]).group == result[j].0
                    && chosen[b].slot == result[j].1;
            if a < b {
                assert(chosen[a].group != chosen[b].group);
            } else if b < a {
                assert(chosen[b].group != chosen[a].group);
            } else {
                assert(result[i] == result[j]);
            }
            assert(false);
        }
    }
}

/// The pairs of the edges in use list the flow.
proof fn lemma_lists_flow(
    g: Seq<Vec<FlowEdge>>,
    group_count: usize,
    slot_count: usize,
    edges: Seq<MatchEdge>,
    positions: Seq<usize>,
    picks: Seq<int>,
    chosen: Seq<MatchEdge>,
    pairs: Seq<(usize, usize)>,
)
    requires
        g.len() == group_count + slot_count + 2,
        placed(g, group_count, slot_count, edges, positions),
        positions.len() == edges.len(),
        picks.len() == chosen.len(),
        forall|i: int|
            0 <= i < picks.len() ==> 0 <= #[trigger] picks[i] < positions.len() && chosen[i]
                == edges[picks[i]] && arc(
                g,
                1 + edges[picks[i]].group as int,
                positions[picks[i]] as int,
            ).capacity == 0,
        forall|j: int|
            #![trigger positions[j]]
            0 <= j < positions.len() && arc(
                g,
                1 + edges[j].group as int,
                positions[j] as int,
            ).capacity == 0 ==> picks.contains(j),
        lists_pairs(chosen, pairs),
    ensures
        lists_flow(rows_of(g), group_count, pairs),
{
    let rows = rows_of(g);
    assert forall|k: usize, t: usize| #[trigger] pairs.contains((k, t)) <==> k < group_count
        && sends_to(rows, group_count, k, t) by {
        if pairs.contains((k, t)) {
            let i = choose|i: int| 0 <= i < pairs.len() && pairs[i] == (k, t);
            assert(takes_pair(chosen, pairs[i]));
            let c = choose|c: int|
                0 <= c < chosen.len() && (#[trigger] chosen[c]).group == k && chosen[c].slot == t;
            let j = picks[c];
            let at = positions[j] as int;
            assert(edge_placed(g, group_count, slot_count, edges[j], positions[j]));
            assert(rows[1 + k][at] == arc(g, 1 + k as int, at));
            assert(sends_to(rows, group_count, k, t));
        }
        if k < group_count && sends_to(rows, group_count, k, t) {
            let at = choose|at: int|
                1 <= at < rows[1 + k].len() && (#[trigger] rows[1 + k][at]).capacity == 0
                    && rows[1 + k][at].to == 1 + group_count + t;
            assert(rows[1 + k][at] == arc(g, 1 + k as int, at));
            assert(listed_at(edges, positions, k as int, at));
            let j = choose|j: int|
                0 <= j < positions.len() && edges[j].group == k && #[trigger] positions[j] == at;
            assert(edge_placed(g, group_count, slot_count, edges[j], positions[j]));
            assert(picks.contains(j));
            let c = choose|c: int| 0 <= c < picks.len() && picks[c] == j;
            assert(chosen[c].group == k && chosen[c].slot == t);
            assert(pairs.contains((chosen[c].group, chosen[c].slot)));
        }
    }
}

/// The order in which the edges are given does not matter: with distinct pairs of group and slot,
/// the same edges in any order give the same matching, or fail alike.
pub proof fn lemma_edge_order_irrelevant(
    group_count: usize,
    slot_count: usize,
    a: Seq<MatchEdge>,
    b: Seq<MatchEdge>,
    x: Result<Vec<(usize, usize)>, AtlasError>,
    y: Result<Vec<(usize, usize)>, AtlasError>,
)
    requires
        distinct_pairs(a),
        a.to_multiset() == b.to_multiset(),
        follows_flow(group_count, slot_count, a, x),
        follows_flow(group_count, slot_count, b, y),
        x is Ok || x == Err::<Vec<(usize, usize)>, AtlasError>(AtlasError::MatchingPathOverflow),
        y is Ok || y == Err::<Vec<(usize, usize)>, AtlasError>(AtlasError::MatchingPathOverflow),
    ensures
        x is Ok <==> y is Ok,
        x is Ok ==> x->Ok_0@ == y->Ok_0@,
{
    let s = lemma_flow_order(group_count, slot_count, a, x);
    let t = lemma_flow_order(group_count, slot_count, b, y);
    lemma_one_order(a, b, s, t);
    let start = started(edge_links(group_count, slot_count, s, s.len() as int));
    let sink = 1 + group_count + slot_count;
    let end = lemma_flow_end(group_count, slot_count, s, x);
    let other = lemma_flow_end(group_count, slot_count, s, y);
    lemma_one_end(start, sink, end, other);
    if x is Ok {
        lemma_one_listing(end.rows, group_count, x->Ok_0@, y->Ok_0@);
    }
}

/// Edges with distinct pairs of group and slot have one order.
proof fn lemma_one_order(
    a: Seq<MatchEdge>,
    b: Seq<MatchEdge>,
    s: Seq<MatchEdge>,
    t: Seq<MatchEdge>,
)
    requires
        distinct_pairs(a),
        a.to_multiset() == b.to_multiset(),
        is_order_of(a, s),
        is_order_of(b, t),
    ensures
        s == t,
{
    assert(distinct_ranks(a)) by {
        assert forall|i: int, j: int| 0 <= i < a.len() && 0 <= j < a.len() && i != j implies !((
        #[trigger] a[i]).ranks_le(#[trigger] a[j]) && a[j].ranks_le(a[i])) by {
            if i < j {
                assert(a[i].group != a[j].group || a[i].slot != a[j].slot);
            } else {
                assert(a[j].group != a[i].group || a[j].slot != a[i].slot);
            }
        }
    }
    lemma_ranked_strict(a, s);
    lemma_ranked_strict(a, t);
    lemma_same_multiset(s, a);
    lemma_same_multiset(t, a);
    lemma_strictly_ranked_unique(s, t);
}

/// What a search over edges with distinct pairs gives is determined, and it does not also fail.
pub proof fn lemma_searched_once(
    group_count: usize,
    slot_count: usize,
    a: Seq<MatchEdge>,
    b: Seq<MatchEdge>,
    x: Seq<(usize, usize)>,
)
    requires
        distinct_pairs(a),
        a.to_multiset() == b.to_multiset(),
        is_searched(group_count, slot_count, a, x),
    ensures
        forall|y: Seq<(usize, usize)>| #[trigger]
            is_searched(group_count, slot_count, b, y) ==> y == x,
        !search_overflows(group_count, slot_count, b),
{
    let (s, rows) = choose|s: Seq<MatchEdge>, rows: Seq<Seq<FlowEdge>>|
        is_order_of(a, s) && #[trigger] flow_gives(group_count, slot_count, s, rows, x);
    let start = started(edge_links(group_count, slot_count, s, s.len() as int));
    let sink = 1 + group_count + slot_count;
    let end = choose|end: FlowState| #[trigger]
        reaches(start, sink, end) && end.phase is Done && end.rows == rows;
    assert forall|y: Seq<(usize, usize)>| #[trigger]
        is_searched(group_count, slot_count, b, y) implies y == x by {
        let (t, flow) = choose|t: Seq<MatchEdge>, flow: Seq<Seq<FlowEdge>>|
            is_order_of(b, t) && #[trigger] flow_gives(group_count, slot_count, t, flow, y);
        lemma_one_order(a, b, s, t);
        let other = choose|other: FlowState| #[trigger]
            reaches(start, sink, other) && other.phase is Done && other.rows == flow;
        lemma_one_end(start, sink, end, other);
        lemma_one_listing(rows, group_count, y, x);
    }
    if search_overflows(group_count, slot_count, b) {
        let t = choose|t: Seq<MatchEdge>|
            is_order_of(b, t) && #[trigger] flow_overflows(group_count, slot_count, t);
        lemma_one_order(a, b, s, t);
        let other = choose|other: FlowState| #[trigger]
            reaches(start, sink, other) && other.phase is Overflow;
        lemma_one_end(start, sink, end, other);
    }
}

/// The order of the edges by which a matching was found.
proof fn lemma_flow_order(
    group_count: usize,
    slot_count: usize,
    edges: Seq<MatchEdge>,
    r: Result<Vec<(usize, usize)>, AtlasError>,
) -> (sorted: Seq<MatchEdge>)
    requires
        follows_flow(group_count, slot_count, edges, r),
        r is Ok || r == Err::<Vec<(usize, usize)>, AtlasError>(AtlasError::MatchingPathOverflow),
    ensures
        is_order_of(edges, sorted),
        ends_so(group_count, slot_count, sorted, r),
{
    match r {
        Ok(pairs) => {
            let (sorted, rows) = choose|sorted: Seq<MatchEdge>, rows: Seq<Seq<FlowEdge>>|
                is_order_of(edges, sorted) && #[trigger] flow_gives(
                    group_count,
                    slot_count,
                    sorted,
                    rows,
                    pairs@,
                );
            let start = started(edge_links(group_count, slot_count, sorted, sorted.len() as int));
            let sink = 1 + group_count + slot_count;
            let end = choose|end: FlowState| #[trigger]
                reaches(start, sink, end) && end.phase is Done && end.rows == rows;
            assert(reaches(start, sink, end) && ends_like(end, group_count, r));
            sorted
        },
        Err(e) => {
            let sorted = choose|sorted: Seq<MatchEdge>|
                is_order_of(edges, sorted) && #[trigger] flow_overflows(
                    group_count,
                    slot_count,
                    sorted,
                );
            let start = started(edge_links(group_count, slot_count, sorted, sorted.len() as int));
            let sink = 1 + group_count + slot_count;
            let end = choose|end: FlowState| #[trigger]
                reaches(start, sink, end) && end.phase is Overflow;
            assert(reaches(start, sink, end) && ends_like(end, group_count, r));
            sorted
        },
    }
}

/// The end of the search says what came of the matching.
spec fn ends_like(
    end: FlowState,
    group_count: usize,
    r: Result<Vec<(usize, usize)>, AtlasError>,
) -> bool {
    match r {
        Ok(pairs) => end.phase is Done && lists_flow(end.rows, group_count, pairs@),
        Err(_) => end.phase is Overflow,
    }
}

spec fn ends_so(
    group_count: usize,
    slot_count: usize,
    sorted: Seq<MatchEdge>,
    r: Result<Vec<(usize, usize)>, AtlasError>,
) -> bool {
    exists|end: FlowState| #[trigger]
        reaches(
            started(edge_links(group_count, slot_count, sorted, sorted.len() as int)),
            1 + group_count + slot_count,
            end,
        ) && ends_like(end, group_count, r)
}

proof fn lemma_flow_end(
    group_count: usize,
    slot_count: usize,
    sorted: Seq<MatchEdge>,
    r: Result<Vec<(usize, usize)>, AtlasError>,
) -> (end: FlowState)
    requires
        ends_so(group_count, slot_count, sorted, r),
    ensures
        reaches(
            started(edge_links(group_count, slot_count, sorted, sorted.len() as int)),
            1 + group_count + slot_count,
            end,
        ),
        ends_like(end, group_count, r),
        is_over(end),
{
    choose|end: FlowState| #[trigger]
        reaches(
            started(edge_links(group_count, slot_count, sorted, sorted.len() as int)),
            1 + group_count + slot_count,
            end,
        ) && ends_like(end, group_count, r)
}

/// A cheapest matching retains the most keys, and among those it has the least tie-break.
pub proof fn lemma_cheapest_retains_most(
    group_count: usize,
    slot_count: usize,
    edges: Seq<MatchEdge>,
    chosen: Seq<MatchEdge>,
    other: Seq<MatchEdge>,
)
    requires
        is_cheapest_matching(group_count, slot_count, edges, chosen),
        is_matching(edges, other),
        forall|i: int|
            0 <= i < edges.len() ==> (#[trigger] edges[i]).group < group_count && edges[i].slot
                < slot_count && edge_tie(group_count, edges[i]) <= usize::MAX,
    ensures
        matching_weight(chosen) >= matching_weight(other),
        matching_weight(chosen) == matching_weight(other) ==> matching_tie(group_count, chosen)
            <= matching_tie(group_count, other),
{
    let scale = weight_scale(group_count, slot_count);
    lemma_scale(group_count, slot_count);
    lemma_cost_split(group_count, slot_count, chosen);
    lemma_cost_split(group_count, slot_count, other);
    lemma_tie_sum(group_count, slot_count, edges, chosen);
    lemma_tie_sum(group_count, slot_count, edges, other);
    let wc = matching_weight(chosen);
    let wo = matching_weight(other);
    let tc = matching_tie(group_count, chosen);
    let to = matching_tie(group_count, other);
    assert((wo - wc) * scale == wo * scale - wc * scale) by (nonlinear_arith);
    assert(wc >= wo) by {
        if wo > wc {
            assert((wo - wc) * scale >= scale) by (nonlinear_arith)
                requires
                    wo - wc >= 1,
                    scale >= 0,
            ;
        }
    }
}

/// Summed tie-break of the chosen edges.
pub open spec fn matching_tie(group_count: usize, chosen: Seq<MatchEdge>) -> int
    decreases chosen.len(),
{
    if chosen.len() == 0 {
        0
    } else {
        matching_tie(group_count, chosen.drop_last()) + edge_tie(group_count, chosen.last())
    }
}

proof fn lemma_cost_split(group_count: usize, slot_count: usize, chosen: Seq<MatchEdge>)
    ensures
        matching_cost(group_count, slot_count, chosen) == matching_tie(group_count, chosen)
            - matching_weight(chosen) * weight_scale(group_count, slot_count),
    decreases chosen.len(),
{
    let scale = weight_scale(group_count, slot_count);
    if chosen.len() > 0 {
        lemma_cost_split(group_count, slot_count, chosen.drop_last());
        let a = matching_weight(chosen.drop_last());
        let b = chosen.last().weight as int;
        assert((a + b) * scale == a * scale + b * scale) by (nonlinear_arith);
    } else {
        assert(0 * scale == 0);
    }
}

proof fn lemma_tie_sum(
    group_count: usize,
    slot_count: usize,
    edges: Seq<MatchEdge>,
    chosen: Seq<MatchEdge>,
)
    requires
        is_matching(edges, chosen),
        forall|i: int|
            0 <= i < edges.len() ==> (#[trigger] edges[i]).group < group_count && edges[i].slot
                < slot_count && edge_tie(group_count, edges[i]) <= usize::MAX,
    ensures
        0 <= matching_tie(group_count, chosen) < weight_scale(group_count, slot_count),
{
    lemma_ids_distinct(edges, chosen);
    let gs = group_ids(chosen);
    let ss = slot_ids(chosen);
    assert forall|i: int| 0 <= i < chosen.len() implies (#[trigger] chosen[i]).group < group_count
        && chosen[i].slot < slot_count && edge_tie(group_count, chosen[i]) <= usize::MAX by {
        assert(edges.contains(chosen[i]));
        let j = choose|j: int| 0 <= j < edges.len() && edges[j] == chosen[i];
        assert(edges[j].group < group_count);
    }
    assert(chosen.len() <= group_count) by {
        assert forall|i: int| 0 <= i < gs.len() implies 0 <= #[trigger] gs[i] < group_count by {
            assert(chosen[i].group < group_count);
        }
        lemma_distinct_below(gs, group_count as nat);
    }
    assert(chosen.len() <= slot_count) by {
        assert forall|i: int| 0 <= i < ss.len() implies 0 <= #[trigger] ss[i] < slot_count by {
            assert(chosen[i].slot < slot_count);
        }
        lemma_distinct_below(ss, slot_count as nat);
    }
    lemma_scale(group_count, slot_count);
    lemma_tie_sum_bound(group_count, slot_count, chosen);
    let t = tie_bound(group_count, slot_count);
    let p = pair_bound(group_count, slot_count);
    assert(chosen.len() * t < (t + 1) * p + 1) by (nonlinear_arith)
        requires
            chosen.len() <= p,
            t >= 0,
            p >= 1,
    ;
}

proof fn lemma_tie_sum_bound(group_count: usize, slot_count: usize, chosen: Seq<MatchEdge>)
    requires
        forall|i: int|
            0 <= i < chosen.len() ==> (#[trigger] chosen[i]).group < group_count && chosen[i].slot
                < slot_count && edge_tie(group_count, chosen[i]) <= usize::MAX,
    ensures
        0 <= matching_tie(group_count, chosen) <= chosen.len() * tie_bound(
            group_count,
            slot_count,
        ),
    decreases chosen.len(),
{
    let t = tie_bound(group_count, slot_count);
    if chosen.len() > 0 {
        let rest = chosen.drop_last();
        assert forall|i: int| 0 <= i < rest.len() implies (#[trigger] rest[i]).group < group_count
            && rest[i].slot < slot_count && edge_tie(group_count, rest[i]) <= usize::MAX by {
            assert(rest[i] == chosen[i]);
        }
        lemma_tie_sum_bound(group_count, slot_count, rest);
        assert(chosen[chosen.len() - 1] == chosen.last());
        lemma_tie_within_bound(group_count, slot_count, chosen.last());
        assert(chosen.len() * t == (chosen.len() - 1) * t + t) by (nonlinear_arith);
    } else {
        assert(0 * t == 0);
    }
}

proof fn lemma_distinct_below(ids: Seq<int>, n: nat)
    requires
        ids.no_duplicates(),
        forall|i: int| 0 <= i < ids.len() ==> 0 <= #[trigger] ids[i] < n,
    ensures
        ids.len() <= n,
{
    let range = vstd::set_lib::set_int_range(0, n as int);
    vstd::set_lib::lemma_int_range(0, n as int);
    ids.unique_seq_to_set();
    assert(ids.to_set().subset_of(range)) by {
        assert forall|x: int| ids.to_set().contains(x) implies range.contains(x) by {
            let i = choose|i: int| 0 <= i < ids.len() && ids[i] == x;
            assert(ids[i] == x);
        }
    }
    vstd::set_lib::lemma_len_subset(ids.to_set(), range);
}

} // verus!
