//! Welds the vertices of a subset and orders its triangles and vertices for drawing.

use crate::list::push_copies;
use crate::model::weld::WeldKey;
use crate::model::{
    contiguous, covered, lemma_covered_grows, lemma_covered_take, tiles, MergedComponent, Vertex,
};
use vstd::prelude::*;
use vstd::slice::slice_subrange;

verus! {

/// All indices refer to one of `count` vertices.
pub open spec fn indices_below(indices: Seq<u32>, count: int) -> bool {
    forall|p: int| 0 <= p < indices.len() ==> #[trigger] indices[p] < count
}

/// The numbers are given out by first appearance: each but 0 follows the one before it.
pub open spec fn numbered_in_order(numbers: Seq<u32>) -> bool {
    forall|p: int|
        0 <= p < numbers.len() && #[trigger] numbers[p] > 0 ==> exists|q: int|
            0 <= q < p && #[trigger] numbers[q] == numbers[p] - 1
}

/// The table with which vertices are welded: those with equal keys share a place, places are
/// numbered in the order in which the indices come to them, and what no index refers to has none.
pub open spec fn is_weld(
    keys: Seq<WeldKey>,
    indices: Seq<u32>,
    count: nat,
    remap: Seq<u32>,
) -> bool {
    &&& remap.len() == keys.len()
    &&& forall|i: int|
        0 <= i < keys.len() && !indices.contains(i as u32) ==> #[trigger] remap[i] == u32::MAX
    &&& forall|i: int|
        0 <= i < keys.len() && indices.contains(i as u32) ==> #[trigger] remap[i] < count
    &&& forall|i: int, j: int|
        0 <= i < keys.len() && 0 <= j < keys.len() && indices.contains(i as u32)
            && indices.contains(j as u32) ==> (#[trigger] remap[i] == #[trigger] remap[j]
            <==> keys[i] == keys[j])
    &&& numbered_in_order(remapped(indices, remap))
    &&& forall|slot: int|
        0 <= slot < count ==> #[trigger] remapped(indices, remap).contains(slot as u32)
}

/// The indices through the table.
pub open spec fn remapped(indices: Seq<u32>, remap: Seq<u32>) -> Seq<u32> {
    indices.map_values(|index: u32| remap[index as int])
}

/// `meshopt::generate_vertex_remap`: vertices whose keys agree share a place; places are numbered
/// without gaps in the order in which the indices first come to them; a vertex that no index refers
/// to has the largest number instead.
#[verifier::external_body]
fn generate_vertex_remap(keys: &[WeldKey], indices: &[u32]) -> (r: (usize, Vec<u32>))
    requires
        keys@.len() < u32::MAX,
        indices_below(indices@, keys@.len() as int),
    ensures
        is_weld(keys@, indices@, r.0 as nat, r.1@),
{
    meshopt::generate_vertex_remap(keys, Some(indices))
}

/// Each place holds the last vertex that goes there.
pub open spec fn gathers(
    vertices: Seq<Vertex>,
    remap: Seq<u32>,
    count: nat,
    gathered: Seq<Vertex>,
) -> bool {
    &&& gathered.len() == count
    &&& forall|i: int|
        0 <= i < vertices.len() && #[trigger] remap[i] != u32::MAX && is_last_of(remap, i)
            ==> gathered[remap[i] as int] == vertices[i]
}

/// No later entry of the table leads to the same place.
pub open spec fn is_last_of(remap: Seq<u32>, i: int) -> bool {
    forall|j: int| i < j < remap.len() ==> #[trigger] remap[j] != remap[i]
}

/// `meshopt::remap_vertex_buffer`: every vertex is copied to its place, in order, so that the last
/// one stays.
#[verifier::external_body]
fn remap_vertex_buffer(vertices: &[Vertex], count: usize, remap: &[u32]) -> (r: Vec<Vertex>)
    requires
        remap@.len() == vertices@.len(),
        count <= vertices@.len(),
        forall|i: int| 0 <= i < remap@.len() ==> #[trigger] remap@[i] == u32::MAX || remap@[i] < count,
    ensures
        gathers(vertices@, remap@, count as nat, r@),
{
    meshopt::remap_vertex_buffer(vertices, count, remap)
}

/// The triangles that indices stand for.
pub open spec fn triangles_of(indices: Seq<u32>) -> Seq<(u32, u32, u32)> {
    Seq::new(
        indices.len() / 3,
        |t: int| (indices[3 * t], indices[3 * t + 1], indices[3 * t + 2]),
    )
}

/// The triangles are the same, in another order.
#[verifier::opaque]
pub open spec fn reorders(before: Seq<u32>, after: Seq<u32>) -> bool {
    &&& after.len() == before.len()
    &&& triangles_of(after).to_multiset() == triangles_of(before).to_multiset()
}

/// The order that `meshopt::optimize_vertex_cache` gives the triangles of the indices among a
/// number of vertices.
pub uninterp spec fn vertex_cache_order(indices: Seq<u32>, vertex_count: nat) -> Seq<u32>;

/// `meshopt::optimize_vertex_cache`: the triangles in an order that suits the vertex cache. The
/// indices are counted in 32 bits.
#[verifier::external_body]
fn optimize_vertex_cache(indices: &[u32], vertex_count: usize) -> (r: Vec<u32>)
    requires
        indices@.len() % 3 == 0,
        indices@.len() <= u32::MAX,
        indices_below(indices@, vertex_count as int),
    ensures
        r@ == vertex_cache_order(indices@, vertex_count as nat),
        reorders(indices@, r@),
{
    meshopt::optimize_vertex_cache(indices, vertex_count)
}

/// The vertices stand in the order in which the indices come to them, and the indices draw what
/// they drew.
pub open spec fn is_fetch_order(
    indices: Seq<u32>,
    vertices: Seq<Vertex>,
    count: nat,
    new_indices: Seq<u32>,
    new_vertices: Seq<Vertex>,
) -> bool {
    &&& new_indices.len() == indices.len()
    &&& new_vertices.len() == vertices.len()
    &&& count <= vertices.len()
    &&& indices_below(new_indices, count as int)
    &&& forall|p: int|
        0 <= p < indices.len() ==> new_vertices[#[trigger] new_indices[p] as int]
            == vertices[indices[p] as int]
    &&& forall|p: int, q: int|
        0 <= p < indices.len() && 0 <= q < indices.len() ==> (#[trigger] new_indices[p]
            == #[trigger] new_indices[q] <==> indices[p] == indices[q])
    &&& numbered_in_order(new_indices)
    &&& forall|slot: int| 0 <= slot < count ==> #[trigger] new_indices.contains(slot as u32)
}

/// `meshopt::optimize_vertex_fetch_in_place`: moves the vertices into the order in which the indices
/// come to them, renumbers the indices, and returns how many vertices are used.
#[verifier::external_body]
fn optimize_vertex_fetch(indices: &mut Vec<u32>, vertices: &mut Vec<Vertex>) -> (r: usize)
    requires
        old(vertices)@.len() < u32::MAX,
        indices_below(old(indices)@, old(vertices)@.len() as int),
    ensures
        is_fetch_order(
            old(indices)@,
            old(vertices)@,
            r as nat,
            final(indices)@,
            final(vertices)@,
        ),
{
    meshopt::optimize_vertex_fetch_in_place(indices.as_mut_slice(), vertices.as_mut_slice())
}

/// `overdraw` takes any triangles, and only orders them anew.
pub open spec fn only_reorders<O: Fn(Vec<u32>, &Vec<Vertex>) -> Vec<u32>>(overdraw: O) -> bool {
    &&& forall|a: Vec<u32>, v: Vec<Vertex>| #[trigger] call_requires(overdraw, (a, &v))
    &&& forall|a: Vec<u32>, v: Vec<Vertex>, b: Vec<u32>| #[trigger]
        call_ensures(overdraw, (a, &v), b) ==> reorders(a@, b@)
}

/// The triangles are ordered for the vertex cache, and then by `overdraw`.
#[verifier::opaque]
pub open spec fn orders_run<O: Fn(Vec<u32>, &Vec<Vertex>) -> Vec<u32>>(
    overdraw: O,
    vertices: Vec<Vertex>,
    before: Seq<u32>,
    after: Seq<u32>,
) -> bool {
    &&& reorders(before, after)
    &&& exists|a: Vec<u32>, b: Vec<u32>| #[trigger]
        call_ensures(overdraw, (a, &vertices), b) && a@ == vertex_cache_order(
            before,
            vertices@.len(),
        ) && b@ == after
}

/// The indices of a component.
pub open spec fn component_part(indices: Seq<u32>, component: MergedComponent) -> Seq<u32> {
    indices.subrange(
        3 * component.first_triangle,
        3 * (component.first_triangle + component.triangle_count),
    )
}

/// The triangles are ordered, each component by itself where there are any.
pub open spec fn orders_all<O: Fn(Vec<u32>, &Vec<Vertex>) -> Vec<u32>>(
    overdraw: O,
    vertices: Vec<Vertex>,
    components: Seq<MergedComponent>,
    before: Seq<u32>,
    after: Seq<u32>,
) -> bool {
    if components.len() == 0 {
        orders_run(overdraw, vertices, before, after)
    } else {
        &&& after.len() == before.len()
        &&& forall|c: int|
            0 <= c < components.len() ==> orders_run(
                overdraw,
                vertices,
                component_part(before, #[trigger] components[c]),
                component_part(after, components[c]),
            )
    }
}

proof fn lemma_reorder_keeps_bound(before: Seq<u32>, after: Seq<u32>, count: int)
    requires
        before.len() % 3 == 0,
        reorders(before, after),
        indices_below(before, count),
    ensures
        indices_below(after, count),
{
    broadcast use vstd::seq_lib::group_to_multiset_ensures;

    reveal(reorders);
    let ta = triangles_of(after);
    let tb = triangles_of(before);
    assert forall|p: int| 0 <= p < after.len() implies #[trigger] after[p] < count by {
        let t = p / 3;
        assert(ta[t] == (after[3 * t], after[3 * t + 1], after[3 * t + 2]));
        assert(ta.contains(ta[t]));
        assert(ta.to_multiset().count(ta[t]) > 0);
        assert(tb.to_multiset().count(ta[t]) > 0);
        assert(tb.contains(ta[t]));
        let u = choose|u: int| 0 <= u < tb.len() && tb[u] == ta[t];
        assert(tb[u] == (before[3 * u], before[3 * u + 1], before[3 * u + 2]));
        assert(before[3 * u] < count && before[3 * u + 1] < count && before[3 * u + 2] < count);
    }
}

proof fn lemma_triangles_join(a: Seq<u32>, b: Seq<u32>)
    requires
        a.len() % 3 == 0,
    ensures
        triangles_of(a + b) == triangles_of(a) + triangles_of(b),
{
    assert(triangles_of(a + b) =~= triangles_of(a) + triangles_of(b));
}

/// Parts that are reordered one after the other make a whole that is reordered.
proof fn lemma_reorders_join(a: Seq<u32>, b: Seq<u32>, c: Seq<u32>, d: Seq<u32>)
    requires
        a.len() % 3 == 0,
        reorders(a, c),
        reorders(b, d),
    ensures
        reorders(a + b, c + d),
{
    reveal(reorders);
    lemma_triangles_join(a, b);
    lemma_triangles_join(c, d);
    vstd::seq_lib::lemma_multiset_commutative(triangles_of(a), triangles_of(b));
    vstd::seq_lib::lemma_multiset_commutative(triangles_of(c), triangles_of(d));
}

/// A prefix is a shorter prefix and what follows it.
proof fn lemma_take_longer(list: Seq<u32>, start: int, end: int)
    requires
        0 <= start <= end <= list.len(),
    ensures
        list.take(end) == list.take(start) + list.subrange(start, end),
{
    assert(list.take(end) =~= list.take(start) + list.subrange(start, end));
}

#[verifier::spinoff_prover]
#[verifier::rlimit(40)]
proof fn lemma_components_reorder(
    components: Seq<MergedComponent>,
    before: Seq<u32>,
    after: Seq<u32>,
    k: int,
)
    requires
        0 <= k <= components.len(),
        contiguous(components),
        3 * covered(components) <= before.len(),
        after.len() == before.len(),
        forall|c: int|
            0 <= c < k ==> reorders(
                component_part(before, #[trigger] components[c]),
                component_part(after, components[c]),
            ),
    ensures
        reorders(
            before.take(3 * covered(components.take(k))),
            after.take(3 * covered(components.take(k))),
        ),
    decreases k,
{
    lemma_covered_grows(components, k, components.len() as int);
    assert(components.take(components.len() as int) =~= components);
    let end = 3 * covered(components.take(k));
    if k == 0 {
        assert(components.take(0).len() == 0);
        assert(before.take(0) =~= Seq::empty());
        assert(after.take(0) =~= Seq::empty());
        assert(reorders(Seq::empty(), Seq::empty())) by {
            reveal(reorders);
        }
    } else {
        lemma_components_reorder(components, before, after, k - 1);
        lemma_covered_take(components, k - 1);
        lemma_covered_grows(components, k - 1, k);
        let start = 3 * covered(components.take(k - 1));
        let component = components[k - 1];
        assert(component.first_triangle == covered(components.take(k - 1)));
        lemma_take_longer(before, start, end);
        lemma_take_longer(after, start, end);
        lemma_reorders_join(
            before.take(start),
            component_part(before, component),
            after.take(start),
            component_part(after, component),
        );
    }
}

/// Ordering only reorders the triangles.
pub proof fn lemma_orders_reorder<O: Fn(Vec<u32>, &Vec<Vertex>) -> Vec<u32>>(
    overdraw: O,
    vertices: Vec<Vertex>,
    components: Seq<MergedComponent>,
    before: Seq<u32>,
    after: Seq<u32>,
)
    requires
        before.len() % 3 == 0,
        tiles(components, before.len() as int / 3),
        orders_all(overdraw, vertices, components, before, after),
    ensures
        reorders(before, after),
{
    reveal(orders_run);
    if components.len() > 0 {
        assert(components.take(components.len() as int) =~= components);
        lemma_components_reorder(components, before, after, components.len() as int);
        assert(before.take(before.len() as int) =~= before);
        assert(after.take(after.len() as int) =~= after);
    }
}

fn order_part<O: Fn(Vec<u32>, &Vec<Vertex>) -> Vec<u32>>(
    overdraw: &O,
    part: &[u32],
    vertices: &Vec<Vertex>,
) -> (r: Vec<u32>)
    requires
        only_reorders(*overdraw),
        part@.len() % 3 == 0,
        part@.len() <= u32::MAX,
        indices_below(part@, vertices@.len() as int),
    ensures
        orders_run(*overdraw, *vertices, part@, r@),
{
    let cached: Vec<u32> = optimize_vertex_cache(part, vertices.len());
    let ghost mid = cached;
    let r: Vec<u32> = overdraw(cached, vertices);
    proof {
        reveal(orders_run);
        reveal(reorders);
        assert(call_ensures(*overdraw, (mid, vertices), r));
    }
    r
}

proof fn lemma_run_length<O: Fn(Vec<u32>, &Vec<Vertex>) -> Vec<u32>>(
    overdraw: O,
    vertices: Vec<Vertex>,
    before: Seq<u32>,
    after: Seq<u32>,
)
    requires
        orders_run(overdraw, vertices, before, after),
    ensures
        after.len() == before.len(),
        reorders(before, after),
{
    reveal(orders_run);
    reveal(reorders);
}

/// What is appended behind earlier components leaves them as they are.
proof fn lemma_part_stays(
    components: Seq<MergedComponent>,
    before: Seq<u32>,
    more: Seq<u32>,
    c: int,
    k: int,
)
    requires
        0 <= k < c <= components.len(),
        contiguous(components),
        before.len() == 3 * covered(components.take(c)),
    ensures
        component_part(before + more, components[k]) == component_part(before, components[k]),
{
    lemma_covered_take(components, k);
    lemma_covered_grows(components, k, k + 1);
    lemma_covered_grows(components, k + 1, c);
    assert(components[k].first_triangle == covered(components.take(k)));
    assert(component_part(before + more, components[k]) =~= component_part(before, components[k]));
}

/// The first `end` components are ordered.
#[verifier::opaque]
pub open spec fn parts_ordered<O: Fn(Vec<u32>, &Vec<Vertex>) -> Vec<u32>>(
    overdraw: O,
    vertices: Vec<Vertex>,
    components: Seq<MergedComponent>,
    before: Seq<u32>,
    after: Seq<u32>,
    end: int,
) -> bool {
    forall|c: int|
        0 <= c < end ==> orders_run(
            overdraw,
            vertices,
            component_part(before, #[trigger] components[c]),
            component_part(after, components[c]),
        )
}

proof fn lemma_parts_grow<O: Fn(Vec<u32>, &Vec<Vertex>) -> Vec<u32>>(
    overdraw: O,
    vertices: Vec<Vertex>,
    components: Seq<MergedComponent>,
    before: Seq<u32>,
    after: Seq<u32>,
    more: Seq<u32>,
    c: int,
)
    requires
        0 <= c < components.len(),
        contiguous(components),
        after.len() == 3 * covered(components.take(c)),
        parts_ordered(overdraw, vertices, components, before, after, c),
        orders_run(overdraw, vertices, component_part(before, components[c]), more),
        more.len() == 3 * components[c].triangle_count,
    ensures
        parts_ordered(overdraw, vertices, components, before, after + more, c + 1),
{
    reveal(parts_ordered);
    let out = after + more;
    assert(components[c].first_triangle == covered(components.take(c)));
    assert(component_part(out, components[c]) =~= more);
    assert forall|k: int| 0 <= k < c + 1 implies orders_run(
        overdraw,
        vertices,
        component_part(before, #[trigger] components[k]),
        component_part(out, components[k]),
    ) by {
        if k < c {
            lemma_part_stays(components, after, more, c, k);
        }
    }
}

/// Where the next component lies among the indices.
proof fn lemma_component_span(components: Seq<MergedComponent>, total: int, c: int)
    requires
        0 <= c < components.len(),
        total % 3 == 0,
        tiles(components, total / 3),
    ensures
        components[c].first_triangle == covered(components.take(c)),
        covered(components.take(c + 1)) == components[c].first_triangle
            + components[c].triangle_count,
        0 <= 3 * components[c].first_triangle <= 3 * (components[c].first_triangle
            + components[c].triangle_count) <= total,
{
    assert(components.take(components.len() as int) =~= components);
    lemma_covered_take(components, c);
    lemma_covered_grows(components, c, c + 1);
    lemma_covered_grows(components, c + 1, components.len() as int);
}

fn order_components<O: Fn(Vec<u32>, &Vec<Vertex>) -> Vec<u32>>(
    overdraw: &O,
    indices: &Vec<u32>,
    components: &[MergedComponent],
    vertices: &Vec<Vertex>,
) -> (r: Vec<u32>)
    requires
        only_reorders(*overdraw),
        components@.len() > 0,
        indices@.len() % 3 == 0,
        indices@.len() <= u32::MAX,
        tiles(components@, indices@.len() as int / 3),
        indices_below(indices@, vertices@.len() as int),
    ensures
        orders_all(*overdraw, *vertices, components@, indices@, r@),
{
    let total: usize = indices.len();
    let mut out: Vec<u32> = Vec::new();
    let mut c: usize = 0;
    proof {
        assert(components@.take(0).len() == 0);
        reveal(parts_ordered);
    }
    while c < components.len()
        invariant
            c <= components@.len(),
            total == indices@.len(),
            total % 3 == 0,
            total <= u32::MAX,
            only_reorders(*overdraw),
            components@.len() > 0,
            tiles(components@, total as int / 3),
            indices_below(indices@, vertices@.len() as int),
            out@.len() == 3 * covered(components@.take(c as int)),
            parts_ordered(*overdraw, *vertices, components@, indices@, out@, c as int),
        decreases components@.len() - c,
    {
        let component = components[c];
        proof {
            lemma_component_span(components@, total as int, c as int);
        }
        let start: usize = component.first_triangle as usize * 3;
        let end: usize = start + component.triangle_count as usize * 3;
        let part = slice_subrange(indices.as_slice(), start, end);
        proof {
            assert forall|p: int| 0 <= p < part@.len() implies #[trigger] part@[p]
                < vertices@.len() by {
                assert(part@[p] == indices@[start + p]);
            }
        }
        let ordered: Vec<u32> = order_part(overdraw, part, vertices);
        proof {
            lemma_run_length(*overdraw, *vertices, part@, ordered@);
            lemma_parts_grow(
                *overdraw,
                *vertices,
                components@,
                indices@,
                out@,
                ordered@,
                c as int,
            );
        }
        push_copies(&mut out, ordered.as_slice());
        c = c + 1;
    }
    proof {
        reveal(parts_ordered);
        assert(components@.take(components@.len() as int) =~= components@);
    }
    out
}

/// The triangles hold the indices, three by three.
pub open spec fn writes_triangles(indices: Seq<u32>, triangles: Seq<[u16; 3]>) -> bool {
    &&& triangles.len() == indices.len() / 3
    &&& forall|t: int|
        0 <= t < triangles.len() ==> (#[trigger] triangles[t])@[0] == indices[3 * t]
            && triangles[t]@[1] == indices[3 * t + 1] && triangles[t]@[2] == indices[3 * t + 2]
}

/// Writes indices as 16-bit triangles. The indices are those of whole triangles.
pub fn write_indices_to_triangles(indices: &[u32]) -> (r: Vec<[u16; 3]>)
    requires
        indices@.len() % 3 == 0,
        indices_below(indices@, 0x1_0000),
    ensures
        writes_triangles(indices@, r@),
{
    let count: usize = indices.len() / 3;
    let mut triangles: Vec<[u16; 3]> = Vec::new();
    let mut t: usize = 0;
    while t < count
        invariant
            t <= count,
            count == indices@.len() / 3,
            3 * count <= indices@.len() <= usize::MAX,
            indices_below(indices@, 0x1_0000),
            triangles@.len() == t,
            forall|k: int|
                0 <= k < t ==> (#[trigger] triangles@[k])@[0] == indices@[3 * k]
                    && triangles@[k]@[1] == indices@[3 * k + 1] && triangles@[k]@[2] == indices@[3
                    * k + 2],
        decreases count - t,
    {
        let a: u32 = indices[3 * t];
        let b: u32 = indices[3 * t + 1];
        let c: u32 = indices[3 * t + 2];
        triangles.push([a as u16, b as u16, c as u16]);
        t = t + 1;
    }
    triangles
}

/// The indices of triangles, one after the other.
pub open spec fn flattened(triangles: Seq<[u16; 3]>) -> Seq<u32> {
    Seq::new(3 * triangles.len(), |p: int| triangles[p / 3]@[p % 3] as u32)
}

/// The indices of triangles, one after the other.
pub fn flatten_triangles(triangles: &[[u16; 3]]) -> (r: Vec<u32>)
    ensures
        r@ == flattened(triangles@),
{
    let mut out: Vec<u32> = Vec::new();
    let mut t: usize = 0;
    while t < triangles.len()
        invariant
            t <= triangles@.len(),
            out@ == flattened(triangles@).take(3 * t as int),
        decreases triangles@.len() - t,
    {
        let triangle = triangles[t];
        out.push(triangle[0] as u32);
        out.push(triangle[1] as u32);
        out.push(triangle[2] as u32);
        proof {
            let all = flattened(triangles@);
            let p = 3 * t as int;
            assert(all[p] == triangle@[0] as u32);
            assert(all[p + 1] == triangle@[1] as u32);
            assert(all[p + 2] == triangle@[2] as u32);
            assert(out@ =~= all.take(3 * (t + 1)));
        }
        t = t + 1;
    }
    assert(flattened(triangles@).take(3 * t as int) =~= flattened(triangles@));
    out
}

fn remap_indices(indices: &[u32], remap: &[u32]) -> (r: Vec<u32>)
    requires
        indices_below(indices@, remap@.len() as int),
    ensures
        r@ == remapped(indices@, remap@),
{
    let mut out: Vec<u32> = Vec::new();
    let mut i: usize = 0;
    while i < indices.len()
        invariant
            i <= indices@.len(),
            indices_below(indices@, remap@.len() as int),
            out@ == remapped(indices@, remap@).take(i as int),
        decreases indices@.len() - i,
    {
        out.push(remap[indices[i] as usize]);
        assert(out@ =~= remapped(indices@, remap@).take(i + 1));
        i = i + 1;
    }
    assert(remapped(indices@, remap@).take(i as int) =~= remapped(indices@, remap@));
    out
}

/// The intermediate results of optimizing a subset.
pub struct OptimizeRun {
    pub count: nat,
    pub remap: Seq<u32>,
    pub gathered: Vec<Vertex>,
    pub ordered: Seq<u32>,
    pub used: nat,
    pub indices: Seq<u32>,
    pub vertices: Seq<Vertex>,
}

/// Every step is as it should be, and the result is the last one.
pub open spec fn optimizes<O: Fn(Vec<u32>, &Vec<Vertex>) -> Vec<u32>>(
    overdraw: O,
    vertices: Seq<Vertex>,
    keys: Seq<WeldKey>,
    indices: Seq<u32>,
    components: Seq<MergedComponent>,
    run: OptimizeRun,
    new_vertices: Seq<Vertex>,
    new_triangles: Seq<[u16; 3]>,
) -> bool {
    &&& is_weld(keys, indices, run.count, run.remap)
    &&& gathers(vertices, run.remap, run.count, run.gathered@)
    &&& orders_all(
        overdraw,
        run.gathered,
        components,
        remapped(indices, run.remap),
        run.ordered,
    )
    &&& is_fetch_order(run.ordered, run.gathered@, run.used, run.indices, run.vertices)
    &&& new_vertices == run.vertices.take(run.used as int)
    &&& writes_triangles(run.indices, new_triangles)
}

/// Welds vertices by their keys, orders the triangles for the vertex cache and against overdraw,
/// each component by itself where there are any, and puts the vertices in the order of their use.
///
/// `overdraw` orders triangles so that few hidden ones are drawn.
pub fn optimize_geometry<O: Fn(Vec<u32>, &Vec<Vertex>) -> Vec<u32>>(
    overdraw: &O,
    vertices: &[Vertex],
    keys: &[WeldKey],
    indices: &[u32],
    components: &[MergedComponent],
) -> (r: (Vec<Vertex>, Vec<[u16; 3]>))
    requires
        only_reorders(*overdraw),
        vertices@.len() <= 0x1_0000,
        keys@.len() == vertices@.len(),
        indices@.len() % 3 == 0,
        indices@.len() <= u32::MAX,
        indices_below(indices@, vertices@.len() as int),
        tiles(components@, indices@.len() as int / 3),
    ensures
        exists|run: OptimizeRun| #[trigger]
            optimizes(
                *overdraw,
                vertices@,
                keys@,
                indices@,
                components@,
                run,
                r.0@,
                r.1@,
            ),
{
    let (count, remap) = generate_vertex_remap(keys, indices);
    let ghost welded = remapped(indices@, remap@);
    proof {
        lemma_weld_bounds(keys@, indices@, count as nat, remap@);
    }
    let gathered: Vec<Vertex> = remap_vertex_buffer(vertices, count, remap.as_slice());
    let moved: Vec<u32> = remap_indices(indices, remap.as_slice());
    let mut ordered: Vec<u32> = if components.len() == 0 {
        order_part(overdraw, moved.as_slice(), &gathered)
    } else {
        order_components(overdraw, &moved, components, &gathered)
    };
    let ghost order = ordered@;
    let ghost kept = gathered;
    proof {
        lemma_orders_reorder(*overdraw, gathered, components@, welded, order);
        lemma_reorder_keeps_bound(welded, order, count as int);
        assert(order.len() == indices@.len()) by {
            reveal(reorders);
        }
    }
    let mut placed: Vec<Vertex> = gathered;
    let used: usize = optimize_vertex_fetch(&mut ordered, &mut placed);
    let ghost whole = placed@;
    proof {
        assert forall|p: int| 0 <= p < ordered@.len() implies #[trigger] ordered@[p] < 0x1_0000 by {
            assert(ordered@[p] < used);
        }
    }
    let triangles = write_indices_to_triangles(ordered.as_slice());
    placed.truncate(used);
    let result = (placed, triangles);
    proof {
        let run = OptimizeRun {
            count: count as nat,
            remap: remap@,
            gathered: kept,
            ordered: order,
            used: used as nat,
            indices: ordered@,
            vertices: whole,
        };
        assert(result.0@ =~= whole.take(used as int));
        assert(optimizes(
            *overdraw,
            vertices@,
            keys@,
            indices@,
            components@,
            run,
            result.0@,
            result.1@,
        ));
    }
    result
}

/// A weld leads to existing places, no more than there are vertices.
proof fn lemma_weld_bounds(keys: Seq<WeldKey>, indices: Seq<u32>, count: nat, remap: Seq<u32>)
    requires
        keys.len() <= 0x1_0000,
        indices_below(indices, keys.len() as int),
        is_weld(keys, indices, count, remap),
    ensures
        forall|i: int| 0 <= i < remap.len() ==> #[trigger] remap[i] == u32::MAX || remap[i] < count,
        indices_below(remapped(indices, remap), count as int),
        count <= keys.len(),
{
    let welded = remapped(indices, remap);
    assert forall|p: int| 0 <= p < welded.len() implies #[trigger] welded[p] < count by {
        let i = indices[p] as int;
        assert(indices.contains(i as u32));
        assert(remap[i] < count);
    }
    assert forall|i: int| 0 <= i < remap.len() implies #[trigger] remap[i] == u32::MAX || remap[i]
        < count by {
        if indices.contains(i as u32) {
            assert(remap[i] < count);
        }
    }
    let places = Seq::new(count, |slot: int| choose|i: int|
        0 <= i < keys.len() && remap[i] == slot as u32);
    if count > keys.len() {
        let limit = keys.len() + 1;
        let few = places.take(limit as int);
        assert forall|s: int| 0 <= s < limit implies 0 <= #[trigger] few[s] < keys.len()
            && remap[few[s]] == s as u32 by {
            assert(welded.contains(s as u32));
            let p = choose|p: int| 0 <= p < welded.len() && welded[p] == s as u32;
            assert(remap[indices[p] as int] == s as u32);
        }
        assert(few.no_duplicates()) by {
            assert forall|a: int, b: int|
                0 <= a < few.len() && 0 <= b < few.len() && a != b implies few[a] != few[b] by {
                assert(remap[few[a]] == a as u32);
                assert(remap[few[b]] == b as u32);
            }
        }
        few.unique_seq_to_set();
        let all = vstd::set_lib::set_int_range(0, keys.len() as int);
        vstd::set_lib::lemma_int_range(0, keys.len() as int);
        assert(few.to_set().subset_of(all)) by {
            assert forall|x: int| few.to_set().contains(x) implies all.contains(x) by {
                let s = choose|s: int| 0 <= s < few.len() && few[s] == x;
                assert(0 <= few[s] < keys.len());
            }
        }
        vstd::set_lib::lemma_len_subset(few.to_set(), all);
        assert(false);
    }
}

/// The vertices that the triangles of the indices draw.
pub open spec fn drawn(indices: Seq<u32>, vertices: Seq<Vertex>) -> Seq<(Vertex, Vertex, Vertex)> {
    triangles_of(indices).map_values(
        |t: (u32, u32, u32)| (vertices[t.0 as int], vertices[t.1 as int], vertices[t.2 as int]),
    )
}

/// The vertices that triangles draw.
pub open spec fn drawn_triangles(triangles: Seq<[u16; 3]>, vertices: Seq<Vertex>) -> Seq<
    (Vertex, Vertex, Vertex),
> {
    triangles.map_values(
        |t: [u16; 3]| (vertices[t@[0] as int], vertices[t@[1] as int], vertices[t@[2] as int]),
    )
}

/// The stand-in is a vertex with the same key.
pub open spec fn shares_key(
    vertices: Seq<Vertex>,
    keys: Seq<WeldKey>,
    i: int,
    stand_in: Vertex,
) -> bool {
    exists|j: int|
        0 <= j < vertices.len() && keys[j] == keys[i] && #[trigger] vertices[j] == stand_in
}

/// Each vertex that is drawn is stood for by one with the same key.
pub open spec fn stands_for(
    vertices: Seq<Vertex>,
    keys: Seq<WeldKey>,
    indices: Seq<u32>,
    stand_ins: Seq<Vertex>,
) -> bool {
    &&& stand_ins.len() == vertices.len()
    &&& forall|i: int|
        0 <= i < vertices.len() && indices.contains(i as u32) ==> shares_key(
            vertices,
            keys,
            i,
            #[trigger] stand_ins[i],
        )
}

proof fn lemma_map_multiset<A, B>(a: Seq<A>, b: Seq<A>, f: spec_fn(A) -> B)
    requires
        a.to_multiset() == b.to_multiset(),
    ensures
        a.map_values(f).to_multiset() == b.map_values(f).to_multiset(),
    decreases a.len(),
{
    broadcast use vstd::seq_lib::group_to_multiset_ensures;

    assert(a.len() == a.to_multiset().len());
    assert(b.len() == b.to_multiset().len());
    if a.len() == 0 {
        assert(a.map_values(f) =~= b.map_values(f));
    } else {
        let x = a.last();
        let rest = a.drop_last();
        assert(a =~= rest.push(x));
        assert(a.contains(x));
        assert(b.to_multiset().count(x) > 0);
        assert(b.contains(x));
        let i = choose|i: int| 0 <= i < b.len() && b[i] == x;
        let other = b.remove(i);
        assert(other.to_multiset() =~= b.to_multiset().remove(x));
        assert(rest.to_multiset() =~= a.to_multiset().remove(x));
        lemma_map_multiset(rest, other, f);
        assert(a.map_values(f) =~= rest.map_values(f).push(f(x)));
        assert(b.map_values(f).remove(i) =~= other.map_values(f));
        assert(b.map_values(f)[i] == f(x));
        assert(b.map_values(f).to_multiset().remove(f(x)) =~= other.map_values(f).to_multiset());
        assert(b.map_values(f).contains(f(x)));
        assert(b.map_values(f).to_multiset() =~= other.map_values(f).to_multiset().insert(f(x)));
    }
}

proof fn lemma_last_of(remap: Seq<u32>, i: int) -> (j: int)
    requires
        0 <= i < remap.len(),
    ensures
        i <= j < remap.len(),
        remap[j] == remap[i],
        is_last_of(remap, j),
    decreases remap.len() - i,
{
    if is_last_of(remap, i) {
        i
    } else {
        let k = choose|k: int| i < k < remap.len() && #[trigger] remap[k] == remap[i];
        lemma_last_of(remap, k)
    }
}

/// Optimizing makes up no vertex, keeps the number of triangles, and leaves every corner a vertex.
#[verifier::spinoff_prover]
#[verifier::rlimit(40)]
pub proof fn lemma_optimize_keeps_vertices<O: Fn(Vec<u32>, &Vec<Vertex>) -> Vec<u32>>(
    overdraw: O,
    vertices: Seq<Vertex>,
    keys: Seq<WeldKey>,
    indices: Seq<u32>,
    components: Seq<MergedComponent>,
    run: OptimizeRun,
    new_vertices: Seq<Vertex>,
    new_triangles: Seq<[u16; 3]>,
)
    requires
        vertices.len() <= 0x1_0000,
        keys.len() == vertices.len(),
        indices.len() % 3 == 0,
        indices_below(indices, vertices.len() as int),
        tiles(components, indices.len() as int / 3),
        optimizes(
            overdraw,
            vertices,
            keys,
            indices,
            components,
            run,
            new_vertices,
            new_triangles,
        ),
    ensures
        new_triangles.len() == indices.len() / 3,
        new_vertices.len() <= vertices.len(),
        forall|i: int|
            0 <= i < new_vertices.len() ==> vertices.contains(#[trigger] new_vertices[i]),
        forall|t: int, c: int|
            0 <= t < new_triangles.len() && 0 <= c < 3 ==> #[trigger] new_triangles[t]@[c]
                < new_vertices.len(),
{
    let welded = remapped(indices, run.remap);
    let gathered = run.gathered@;
    lemma_weld_bounds(keys, indices, run.count, run.remap);
    lemma_orders_reorder(overdraw, run.gathered, components, welded, run.ordered);
    lemma_reorder_keeps_bound(welded, run.ordered, run.count as int);
    assert(run.ordered.len() == welded.len()) by {
        reveal(reorders);
    }
    assert forall|i: int| 0 <= i < new_vertices.len() implies vertices.contains(
        #[trigger] new_vertices[i],
    ) by {
        assert(run.indices.contains(i as u32));
        let p = choose|p: int| 0 <= p < run.indices.len() && run.indices[p] == i as u32;
        assert(run.vertices[run.indices[p] as int] == gathered[run.ordered[p] as int]);
        let slot = run.ordered[p];
        assert(slot < run.count);
        assert(welded.contains(slot as int as u32));
        let q = choose|q: int| 0 <= q < welded.len() && welded[q] == slot;
        let first = indices[q] as int;
        assert(indices.contains(indices[q]));
        assert(run.remap[first] == slot);
        let last = lemma_last_of(run.remap, first);
        assert(run.remap[last] != u32::MAX);
        assert(gathered[run.remap[last] as int] == vertices[last]);
    }
    assert forall|t: int, c: int| 0 <= t < new_triangles.len() && 0 <= c < 3 implies #[trigger]
    new_triangles[t]@[c] < new_vertices.len() by {
        assert(run.indices[3 * t] < run.used && run.indices[3 * t + 1] < run.used
            && run.indices[3 * t + 2] < run.used);
        assert(new_triangles[t]@[0] == run.indices[3 * t]);
    }
}

/// Optimizing draws the same triangles, with welded vertices stood for by one another.
pub proof fn lemma_optimize_draws_the_same<O: Fn(Vec<u32>, &Vec<Vertex>) -> Vec<u32>>(
    overdraw: O,
    vertices: Seq<Vertex>,
    keys: Seq<WeldKey>,
    indices: Seq<u32>,
    components: Seq<MergedComponent>,
    run: OptimizeRun,
    new_vertices: Seq<Vertex>,
    new_triangles: Seq<[u16; 3]>,
) -> (stand_ins: Seq<Vertex>)
    requires
        vertices.len() <= 0x1_0000,
        keys.len() == vertices.len(),
        indices.len() % 3 == 0,
        indices_below(indices, vertices.len() as int),
        tiles(components, indices.len() as int / 3),
        optimizes(
            overdraw,
            vertices,
            keys,
            indices,
            components,
            run,
            new_vertices,
            new_triangles,
        ),
    ensures
        stands_for(vertices, keys, indices, stand_ins),
        drawn_triangles(new_triangles, new_vertices).to_multiset() == drawn(
            indices,
            stand_ins,
        ).to_multiset(),
{
    let welded = remapped(indices, run.remap);
    let gathered = run.gathered@;
    let stand_ins = Seq::new(vertices.len(), |i: int| gathered[run.remap[i] as int]);
    lemma_weld_bounds(keys, indices, run.count, run.remap);
    assert forall|i: int| 0 <= i < vertices.len() && indices.contains(i as u32) implies shares_key(
        vertices,
        keys,
        i,
        #[trigger] stand_ins[i],
    ) by {
        let j = lemma_last_of(run.remap, i);
        assert(run.remap[i] < run.count);
        assert(run.remap[j] != u32::MAX);
        assert(indices.contains(j as u32)) by {
            if !indices.contains(j as u32) {
                assert(run.remap[j] == u32::MAX);
            }
        }
        assert(gathered[run.remap[j] as int] == vertices[j]);
        assert(vertices[j] == stand_ins[i]);
    }
    lemma_orders_reorder(overdraw, run.gathered, components, welded, run.ordered);
    reveal(reorders);
    let f = |t: (u32, u32, u32)|
        (gathered[t.0 as int], gathered[t.1 as int], gathered[t.2 as int]);
    lemma_map_multiset(triangles_of(run.ordered), triangles_of(welded), f);
    assert(triangles_of(run.ordered).map_values(f) =~= drawn(run.ordered, gathered));
    assert(triangles_of(welded).map_values(f) =~= drawn(welded, gathered));
    lemma_welded_drawn(indices, run.remap, gathered, stand_ins);
    lemma_fetched_drawn(run, new_vertices, new_triangles);
    stand_ins
}

proof fn lemma_welded_drawn(
    indices: Seq<u32>,
    remap: Seq<u32>,
    gathered: Seq<Vertex>,
    stand_ins: Seq<Vertex>,
)
    requires
        indices_below(indices, stand_ins.len() as int),
        forall|i: int|
            0 <= i < stand_ins.len() ==> #[trigger] stand_ins[i] == gathered[remap[i] as int],
    ensures
        drawn(remapped(indices, remap), gathered) == drawn(indices, stand_ins),
{
    let welded = remapped(indices, remap);
    let a = drawn(welded, gathered);
    let b = drawn(indices, stand_ins);
    assert forall|t: int| 0 <= t < a.len() implies #[trigger] a[t] == b[t] by {
        assert(triangles_of(welded)[t] == (welded[3 * t], welded[3 * t + 1], welded[3 * t + 2]));
        assert(triangles_of(indices)[t] == (
            indices[3 * t],
            indices[3 * t + 1],
            indices[3 * t + 2],
        ));
        assert(indices[3 * t] < stand_ins.len());
        assert(indices[3 * t + 1] < stand_ins.len());
        assert(indices[3 * t + 2] < stand_ins.len());
        assert(stand_ins[indices[3 * t] as int] == gathered[welded[3 * t] as int]);
        assert(stand_ins[indices[3 * t + 1] as int] == gathered[welded[3 * t + 1] as int]);
        assert(stand_ins[indices[3 * t + 2] as int] == gathered[welded[3 * t + 2] as int]);
    }
    assert(a =~= b);
}

proof fn lemma_fetched_drawn(
    run: OptimizeRun,
    new_vertices: Seq<Vertex>,
    new_triangles: Seq<[u16; 3]>,
)
    requires
        is_fetch_order(run.ordered, run.gathered@, run.used, run.indices, run.vertices),
        new_vertices == run.vertices.take(run.used as int),
        writes_triangles(run.indices, new_triangles),
    ensures
        drawn_triangles(new_triangles, new_vertices) == drawn(run.ordered, run.gathered@),
{
    let a = drawn_triangles(new_triangles, new_vertices);
    let b = drawn(run.ordered, run.gathered@);
    assert forall|t: int| 0 <= t < a.len() implies #[trigger] a[t] == b[t] by {
        let p = 3 * t;
        assert(triangles_of(run.ordered)[t] == (
            run.ordered[p],
            run.ordered[p + 1],
            run.ordered[p + 2],
        ));
        assert(new_triangles[t]@[0] == run.indices[p]);
        assert(run.indices[p] < run.used && run.indices[p + 1] < run.used && run.indices[p + 2]
            < run.used);
        assert(run.vertices[run.indices[p] as int] == run.gathered@[run.ordered[p] as int]);
        assert(run.vertices[run.indices[p + 1] as int] == run.gathered@[run.ordered[p
            + 1] as int]);
        assert(run.vertices[run.indices[p + 2] as int] == run.gathered@[run.ordered[p
            + 2] as int]);
    }
    assert(a =~= b);
}

} // verus!
