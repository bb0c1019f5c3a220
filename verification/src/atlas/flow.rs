//! The search for augmenting paths, step by step: what it does next rests on where it stands alone.

use crate::atlas::graph::{edge_cost, FlowEdge, MatchEdge};
use crate::sort::lemma_strictly_ranked_unique;
use vstd::prelude::*;

verus! {

/// What is done next.
pub enum FlowPhase {
    /// Take the next node from the queue; with none left, see whether the sink pays.
    Seek,
    /// Follow the arcs of the node, from this one on.
    Scan(usize, int),
    /// Send a unit back along the path to the source.
    Trace(usize),
    /// No path pays any more.
    Done,
    /// A path cost cannot be represented.
    Overflow,
}

/// Where the search stands.
pub struct FlowState {
    pub rows: Seq<Seq<FlowEdge>>,
    pub dist: Seq<i128>,
    pub pred: Seq<Option<(usize, usize)>>,
    pub queued: Seq<bool>,
    pub queue: Seq<usize>,
    pub phase: FlowPhase,
}

/// A search at its start: only the source is reached.
pub open spec fn started(rows: Seq<Seq<FlowEdge>>) -> FlowState {
    FlowState {
        rows,
        dist: Seq::new(rows.len(), |v: int| i128::MAX).update(0, 0),
        pred: Seq::new(rows.len(), |v: int| None),
        queued: Seq::new(rows.len(), |v: int| false).update(0, true),
        queue: seq![0usize],
        phase: FlowPhase::Seek,
    }
}

/// The network with one unit sent along an arc.
pub open spec fn with_unit(
    rows: Seq<Seq<FlowEdge>>,
    u: int,
    e: int,
) -> Seq<Seq<FlowEdge>> {
    let arc = rows[u][e];
    let sent = rows.update(u, rows[u].update(e, FlowEdge { capacity: 0, ..arc }));
    let back = sent[arc.to as int][arc.reverse as int];
    sent.update(
        arc.to as int,
        sent[arc.to as int].update(arc.reverse as int, FlowEdge { capacity: 1, ..back }),
    )
}

/// The step that follows.
#[verifier::opaque]
pub open spec fn stepped(s: FlowState, sink: int) -> FlowState {
    match s.phase {
        FlowPhase::Seek => if s.queue.len() > 0 {
            let node = s.queue[0];
            FlowState {
                queued: s.queued.update(node as int, false),
                queue: s.queue.skip(1),
                phase: FlowPhase::Scan(node, 0),
                ..s
            }
        } else if s.dist[sink] >= 0 {
            FlowState { phase: FlowPhase::Done, ..s }
        } else {
            FlowState { phase: FlowPhase::Trace(sink as usize), ..s }
        },
        FlowPhase::Scan(node, e) => if e >= s.rows[node as int].len() {
            FlowState { phase: FlowPhase::Seek, ..s }
        } else {
            let arc = s.rows[node as int][e];
            let next = s.dist[node as int] + arc.cost;
            if arc.capacity == 0 {
                FlowState { phase: FlowPhase::Scan(node, e + 1), ..s }
            } else if next < i128::MIN || next >= i128::MAX {
                FlowState { phase: FlowPhase::Overflow, ..s }
            } else if next < s.dist[arc.to as int] {
                FlowState {
                    dist: s.dist.update(arc.to as int, next as i128),
                    pred: s.pred.update(arc.to as int, Some((node, e as usize))),
                    queued: s.queued.update(arc.to as int, true),
                    queue: if s.queued[arc.to as int] {
                        s.queue
                    } else {
                        s.queue.push(arc.to)
                    },
                    phase: FlowPhase::Scan(node, e + 1),
                    ..s
                }
            } else {
                FlowState { phase: FlowPhase::Scan(node, e + 1), ..s }
            }
        },
        FlowPhase::Trace(node) => if node == 0 {
            started(s.rows)
        } else {
            match s.pred[node as int] {
                Some((u, e)) => FlowState {
                    rows: with_unit(s.rows, u as int, e as int),
                    phase: FlowPhase::Trace(u),
                    ..s
                },
                None => FlowState { phase: FlowPhase::Done, ..s },
            }
        },
        FlowPhase::Done => s,
        FlowPhase::Overflow => s,
    }
}

/// The state after so many steps.
pub open spec fn after_steps(s: FlowState, sink: int, count: nat) -> FlowState
    decreases count,
{
    if count == 0 {
        s
    } else {
        stepped(after_steps(s, sink, (count - 1) as nat), sink)
    }
}

/// The search comes from one state to the other.
#[verifier::opaque]
pub open spec fn reaches(from: FlowState, sink: int, to: FlowState) -> bool {
    exists|count: nat| #[trigger] after_steps(from, sink, count) == to
}

/// The search is over.
pub open spec fn is_over(s: FlowState) -> bool {
    s.phase is Done || s.phase is Overflow
}

pub proof fn lemma_reaches_itself(s: FlowState, sink: int)
    ensures
        reaches(s, sink, s),
{
    reveal(reaches);
    assert(after_steps(s, sink, 0) == s);
}

pub proof fn lemma_reaches_step(from: FlowState, sink: int, to: FlowState)
    requires
        reaches(from, sink, to),
    ensures
        reaches(from, sink, stepped(to, sink)),
{
    reveal(reaches);
    let count = choose|count: nat| #[trigger] after_steps(from, sink, count) == to;
    assert(after_steps(from, sink, count + 1) == stepped(to, sink));
}

pub proof fn lemma_reaches_on(a: FlowState, sink: int, b: FlowState, c: FlowState)
    requires
        reaches(a, sink, b),
        reaches(b, sink, c),
    ensures
        reaches(a, sink, c),
{
    reveal(reaches);
    let count = choose|count: nat| #[trigger] after_steps(b, sink, count) == c;
    lemma_steps_on(a, sink, b, count);
}

proof fn lemma_steps_on(a: FlowState, sink: int, b: FlowState, count: nat)
    requires
        reaches(a, sink, b),
    ensures
        reaches(a, sink, after_steps(b, sink, count)),
    decreases count,
{
    if count > 0 {
        lemma_steps_on(a, sink, b, (count - 1) as nat);
        lemma_reaches_step(a, sink, after_steps(b, sink, (count - 1) as nat));
    }
}

proof fn lemma_over_stays(s: FlowState, sink: int, early: nat, late: nat)
    requires
        is_over(after_steps(s, sink, early)),
        early <= late,
    ensures
        after_steps(s, sink, late) == after_steps(s, sink, early),
    decreases late,
{
    if early < late {
        lemma_over_stays(s, sink, early, (late - 1) as nat);
        reveal(stepped);
    }
}

/// A search has one end.
pub proof fn lemma_one_end(from: FlowState, sink: int, a: FlowState, b: FlowState)
    requires
        reaches(from, sink, a),
        reaches(from, sink, b),
        is_over(a),
        is_over(b),
    ensures
        a == b,
{
    reveal(reaches);
    let x = choose|x: nat| #[trigger] after_steps(from, sink, x) == a;
    let y = choose|y: nat| #[trigger] after_steps(from, sink, y) == b;
    if x <= y {
        lemma_over_stays(from, sink, x, y);
    } else {
        lemma_over_stays(from, sink, y, x);
    }
}

// ---------------------------------------------------------------------------------------------
// The network
// ---------------------------------------------------------------------------------------------

/// The network with an arc and its counterpart.
pub open spec fn linked(
    rows: Seq<Seq<FlowEdge>>,
    from: int,
    to: int,
    cost: i128,
) -> Seq<Seq<FlowEdge>> {
    let there = FlowEdge {
        to: to as usize,
        reverse: rows[to].len() as usize,
        capacity: 1,
        cost,
    };
    let back = FlowEdge {
        to: from as usize,
        reverse: rows[from].len() as usize,
        capacity: 0,
        cost: (-cost) as i128,
    };
    rows.update(from, rows[from].push(there)).update(to, rows[to].push(back))
}

/// The source joined to the first `end` groups.
pub open spec fn group_links(nodes: nat, end: int) -> Seq<Seq<FlowEdge>>
    decreases end,
{
    if end <= 0 {
        Seq::new(nodes, |u: int| Seq::empty())
    } else {
        linked(group_links(nodes, end - 1), 0, end, 0)
    }
}

/// And the first `end` slots joined to the sink.
pub open spec fn slot_links(groups: int, slots: int, end: int) -> Seq<Seq<FlowEdge>>
    decreases end,
{
    if end <= 0 {
        group_links((groups + slots + 2) as nat, groups)
    } else {
        linked(slot_links(groups, slots, end - 1), groups + end, 1 + groups + slots, 0)
    }
}

/// And the first `end` edges.
pub open spec fn edge_links(
    group_count: usize,
    slot_count: usize,
    edges: Seq<MatchEdge>,
    end: int,
) -> Seq<Seq<FlowEdge>>
    decreases end,
{
    if end <= 0 {
        slot_links(group_count as int, slot_count as int, slot_count as int)
    } else {
        let edge = edges[end - 1];
        linked(
            edge_links(group_count, slot_count, edges, end - 1),
            1 + edge.group,
            1 + group_count + edge.slot,
            edge_cost(group_count, slot_count, edge) as i128,
        )
    }
}

/// Group `k` sends its unit to slot `t`.
pub open spec fn sends_to(
    rows: Seq<Seq<FlowEdge>>,
    group_count: usize,
    k: usize,
    t: usize,
) -> bool {
    exists|i: int|
        1 <= i < rows[1 + k].len() && (#[trigger] rows[1 + k][i]).capacity == 0 && rows[1 + k][i].to
            == 1 + group_count + t
}

/// The pairs are the groups with the slots that they send to, by ascending group.
pub open spec fn lists_flow(
    rows: Seq<Seq<FlowEdge>>,
    group_count: usize,
    pairs: Seq<(usize, usize)>,
) -> bool {
    &&& forall|i: int, j: int|
        0 <= i < j < pairs.len() ==> (#[trigger] pairs[i]).0 < (#[trigger] pairs[j]).0
    &&& forall|k: usize, t: usize| #[trigger]
        pairs.contains((k, t)) <==> k < group_count && sends_to(rows, group_count, k, t)
}

/// Flows list one list of pairs.
pub proof fn lemma_one_listing(
    rows: Seq<Seq<FlowEdge>>,
    group_count: usize,
    a: Seq<(usize, usize)>,
    b: Seq<(usize, usize)>,
)
    requires
        lists_flow(rows, group_count, a),
        lists_flow(rows, group_count, b),
    ensures
        a == b,
{
    assert forall|pair: (usize, usize)| #[trigger] a.contains(pair) <==> b.contains(pair) by {
        assert(a.contains((pair.0, pair.1)) <==> b.contains((pair.0, pair.1)));
    }
    lemma_strictly_ranked_unique(a, b);
}

} // verus!
