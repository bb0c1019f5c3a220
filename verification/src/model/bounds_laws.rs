//! Laws of bounds: what boxes hold, how numbers are ordered, and what simplification leaves alone.

use crate::float_bits::{at_least, below, finite, is_number};
use crate::model::bounds::{
    all_bounds_updated, bounded_by_subsets, boxes_of, lies_somewhere,
};
use crate::model::merge::SubsetView;
use crate::model::process::{all_simplified, subset_simplified};
use crate::model::{Bound, DistantStatic, Subset, Vertex};
use vstd::prelude::*;

verus! {

/// Numbers are ordered by their patterns: upwards without a sign, downwards with one, and a number
/// with a sign is below one without but for the zeros. What is no number is neither below nor above
/// anything.
pub proof fn lemma_number_line(a: u32, b: u32)
    requires
        a <= 0x7fff_ffff,
        b <= 0x7fff_ffff,
    ensures
        a <= 0x7f80_0000 && b <= 0x7f80_0000 ==> {
            let negative_a = (a + 0x8000_0000) as u32;
            let negative_b = (b + 0x8000_0000) as u32;
            &&& below(a, b) <==> a < b
            &&& below(negative_a, negative_b) <==> a > b
            &&& below(negative_a, b) <==> a > 0 || b > 0
            &&& !below(a, negative_b)
            &&& at_least(a, b) <==> a >= b
            &&& at_least(a, negative_b)
        },
        a > 0x7f80_0000 ==> !is_number(a) && !below(a, b) && !below(b, a) && !at_least(a, b)
            && !at_least(b, a),
        finite(a) <==> a < 0x7f80_0000,
{
}

/// The box of a static holds every vertex of its subsets that lies somewhere.
pub proof fn lemma_box_holds_vertices<J: Fn(Bound, Bound) -> Bound, E: Fn(&Vec<Vertex>) -> Bound>(
    join: J,
    enclose: E,
    before: Seq<SubsetView>,
    whole: DistantStatic,
    s: int,
    v: int,
    lane: int,
)
    requires
        all_bounds_updated(join, enclose, before, whole.subsets@),
        bounded_by_subsets(join, whole),
        0 <= s < before.len(),
        0 <= v < before[s].vertices.len(),
        0 <= lane < 3,
        lies_somewhere(before[s].vertices[v]),
    ensures
        whole.subsets@[s].vertices@ == before[s].vertices,
        at_least(before[s].vertices[v].position@[lane], whole.bounding_box.min@[lane]),
        at_least(whole.bounding_box.max@[lane], before[s].vertices[v].position@[lane]),
{
    let after = whole.subsets@;
    let vertices = before[s].vertices;
    let own = after[s].bounding_box;
    assert(lies_somewhere(vertices[v]));
    let value = vertices[v].position@[lane];
    assert(!below(value, own.min@[lane]));
    assert(!below(own.max@[lane], value));
    let boxes = boxes_of(after);
    assert(boxes[s] == own);
    assert(boxes[s].min@[lane] == own.min@[lane]);
    assert(!below(own.min@[lane], whole.bounding_box.min@[lane]));
    assert(!below(whole.bounding_box.max@[lane], own.max@[lane]));
    let low = choose|i: int|
        0 <= i < boxes.len() && (#[trigger] boxes[i]).min@[lane] == whole.bounding_box.min@[lane];
    let high = choose|i: int|
        0 <= i < boxes.len() && (#[trigger] boxes[i]).max@[lane] == whole.bounding_box.max@[lane];
    assert(boxes[low] == after[low].bounding_box);
    assert(boxes[high] == after[high].bounding_box);
    assert(finite(own.min@[lane]) && finite(own.max@[lane]) && finite(value));
}

/// Simplification changes no vertex, and leaves subsets with alpha alone.
pub proof fn lemma_simplified_only_triangles<S: Fn(&Subset) -> Vec<u32>>(
    simplify: S,
    before: Seq<Subset>,
    after: Seq<Subset>,
    s: int,
)
    requires
        all_simplified(simplify, before, after),
        0 <= s < before.len(),
    ensures
        after.len() == before.len(),
        after[s].vertices@ == before[s].vertices@,
        before[s].has_alpha ==> after[s] == before[s],
        after[s].has_alpha == before[s].has_alpha,
        after[s].texture == before[s].texture,
        after[s].emissive == before[s].emissive,
        after[s].has_uv_controller == before[s].has_uv_controller,
{
    assert(subset_simplified(simplify, before[s], after[s]));
}

} // verus!
