//! The distinct UV bounds of a subset.

use crate::atlas::types::UvBound;
use crate::model::Vertex;
use vstd::prelude::*;

verus! {

/// Most bounds that one subset's palette may hold.
pub const UV_BOUND_PALETTE_CAP: usize = 128;

/// `bounds` with the first `end` of `source` added where they are new, in order.
///
/// Bounds are told apart by their bits: numeric equality would take signed zeros for one.
pub open spec fn united(bounds: Seq<UvBound>, source: Seq<UvBound>, end: int) -> Seq<UvBound>
    decreases end,
{
    if end <= 0 {
        bounds
    } else {
        let before = united(bounds, source, end - 1);
        if before.contains(source[end - 1]) {
            before
        } else {
            before.push(source[end - 1])
        }
    }
}

/// `bounds` with all of `source` added where they are new.
pub open spec fn union_of(bounds: Seq<UvBound>, source: Seq<UvBound>) -> Seq<UvBound> {
    united(bounds, source, source.len() as int)
}

/// The union still fits the palette, or adds nothing.
pub open spec fn union_fits(a: Seq<UvBound>, b: Seq<UvBound>) -> bool {
    union_of(a, b).len() <= UV_BOUND_PALETTE_CAP || union_of(a, b).len() == a.len()
}

/// Position of a bound in the list.
fn find_bound(bounds: &Vec<UvBound>, bound: UvBound) -> (r: Option<usize>)
    ensures
        match r {
            Some(i) => i < bounds@.len() && bounds@[i as int] == bound && forall|k: int|
                0 <= k < i ==> #[trigger] bounds@[k] != bound,
            None => !bounds@.contains(bound),
        },
{
    let mut i: usize = 0;
    while i < bounds.len()
        invariant
            i <= bounds@.len(),
            forall|k: int| 0 <= k < i ==> #[trigger] bounds@[k] != bound,
        decreases bounds@.len() - i,
    {
        if bounds[i] == bound {
            return Some(i);
        }
        i = i + 1;
    }
    None
}

/// Unions `source` into `destination`, keeping the destination distinct.
pub fn union_uv_bounds(destination: &mut Vec<UvBound>, source: &[UvBound])
    ensures
        final(destination)@ == union_of(old(destination)@, source@),
{
    let mut i: usize = 0;
    while i < source.len()
        invariant
            i <= source@.len(),
            destination@ == united(old(destination)@, source@, i as int),
        decreases source@.len() - i,
    {
        match find_bound(destination, source[i]) {
            Some(_) => {
                assert(destination@.contains(source@[i as int]));
            },
            None => {
                destination.push(source[i]);
            },
        }
        i = i + 1;
    }
}

proof fn lemma_united_grows(bounds: Seq<UvBound>, source: Seq<UvBound>, i: int, j: int)
    requires
        0 <= i <= j,
    ensures
        united(bounds, source, i).len() <= united(bounds, source, j).len(),
    decreases j,
{
    if i < j {
        lemma_united_grows(bounds, source, i, j - 1);
    }
}

/// Returns whether the distinct union of two subsets' bounds still fits the palette cap.
pub fn uv_bound_union_fits(a: &[UvBound], b: &[UvBound]) -> (r: bool)
    ensures
        r == union_fits(a@, b@),
{
    let mut keys: Vec<UvBound> = crate::list::copied(a);
    let mut i: usize = 0;
    while i < b.len()
        invariant
            i <= b@.len(),
            keys@ == united(a@, b@, i as int),
            keys@.len() <= UV_BOUND_PALETTE_CAP || keys@.len() == a@.len(),
            keys@.len() >= a@.len(),
        decreases b@.len() - i,
    {
        match find_bound(&keys, b[i]) {
            Some(_) => {
                assert(keys@.contains(b@[i as int]));
            },
            None => {
                keys.push(b[i]);
                if keys.len() > UV_BOUND_PALETTE_CAP {
                    proof {
                        lemma_united_grows(a@, b@, i + 1, b@.len() as int);
                    }
                    return false;
                }
            },
        }
        i = i + 1;
    }
    true
}

/// A union keeps distinct bounds distinct, and holds what either side holds.
pub proof fn lemma_union(bounds: Seq<UvBound>, source: Seq<UvBound>, end: int)
    requires
        bounds.no_duplicates(),
        0 <= end <= source.len(),
    ensures
        united(bounds, source, end).no_duplicates(),
        forall|bound: UvBound| #[trigger]
            united(bounds, source, end).contains(bound) <==> bounds.contains(bound) || source.take(
                end,
            ).contains(bound),
    decreases end,
{
    if end > 0 {
        lemma_union(bounds, source, end - 1);
        let before = united(bounds, source, end - 1);
        let now = united(bounds, source, end);
        let last = source[end - 1];
        let earlier = source.take(end - 1);
        let upto = source.take(end);
        assert(upto =~= earlier.push(last));
        assert forall|bound: UvBound| #[trigger] now.contains(bound) <==> bounds.contains(bound)
            || upto.contains(bound) by {
            assert(before.contains(bound) <==> bounds.contains(bound) || earlier.contains(bound));
            if earlier.contains(bound) {
                let k = choose|k: int| 0 <= k < end - 1 && earlier[k] == bound;
                assert(upto[k] == bound);
            }
            if bound == last {
                assert(upto[end - 1] == bound);
            }
            if upto.contains(bound) && bound != last {
                let k = choose|k: int| 0 <= k < end && upto[k] == bound;
                assert(earlier[k] == bound);
            }
            if now.contains(bound) && !before.contains(bound) {
                let k = choose|k: int| 0 <= k < now.len() && now[k] == bound;
                if k < before.len() {
                    assert(before[k] == bound);
                }
            }
            if before.contains(bound) {
                let k = choose|k: int| 0 <= k < before.len() && before[k] == bound;
                assert(now[k] == bound);
            }
            if bound == last && !before.contains(last) {
                assert(now[before.len() as int] == bound);
            }
        }
        if !before.contains(last) {
            assert forall|i: int, j: int| 0 <= i < now.len() && 0 <= j < now.len() && i
                != j implies now[i] != now[j] by {
                if i < before.len() && j < before.len() {
                } else if i < before.len() {
                    assert(before.contains(before[i]));
                } else {
                    assert(before.contains(before[j]));
                }
            }
        }
    } else {
        assert(source.take(0).len() == 0);
    }
}

/// The bounds that the vertices carry, in order.
pub open spec fn vertex_bounds(vertices: Seq<Vertex>) -> Seq<UvBound> {
    vertices.map_values(|vertex: Vertex| vertex.uv_bound)
}

/// The palette of the vertices: their distinct bounds in order of first appearance.
pub open spec fn palette_of(vertices: Seq<Vertex>) -> Seq<UvBound> {
    union_of(Seq::empty(), vertex_bounds(vertices))
}

/// Builds the palette of the vertices and each vertex's position in it.
///
/// The palette is rebuilt from the vertices themselves, so a stale list of bounds cannot ship a
/// wrong palette.
pub fn build_palette(vertices: &[Vertex]) -> (r: (Vec<UvBound>, Vec<usize>))
    ensures
        r.0@ == palette_of(vertices@),
        r.1@.len() == vertices@.len(),
        forall|i: int|
            0 <= i < vertices@.len() ==> (#[trigger] r.1@[i]) < r.0@.len() && r.0@[r.1@[i] as int]
                == vertices@[i].uv_bound,
{
    let mut palette: Vec<UvBound> = Vec::new();
    let mut ordinals: Vec<usize> = Vec::new();
    let mut i: usize = 0;
    let ghost bounds = vertex_bounds(vertices@);
    while i < vertices.len()
        invariant
            i <= vertices@.len(),
            bounds == vertex_bounds(vertices@),
            palette@ == united(Seq::empty(), bounds, i as int),
            ordinals@.len() == i,
            forall|k: int|
                0 <= k < i ==> (#[trigger] ordinals@[k]) < palette@.len()
                    && palette@[ordinals@[k] as int] == vertices@[k].uv_bound,
        decreases vertices@.len() - i,
    {
        let bound: UvBound = vertices[i].uv_bound;
        assert(bounds[i as int] == bound);
        let ordinal: usize = match find_bound(&palette, bound) {
            Some(position) => {
                assert(palette@.contains(bound));
                position
            },
            None => {
                palette.push(bound);
                palette.len() - 1
            },
        };
        ordinals.push(ordinal);
        i = i + 1;
    }
    (palette, ordinals)
}

/// Every vertex's bound is listed.
pub open spec fn bounds_listed(vertices: Seq<Vertex>, uv_bounds: Seq<UvBound>) -> bool {
    forall|i: int| 0 <= i < vertices.len() ==> uv_bounds.contains((#[trigger] vertices[i]).uv_bound)
}

/// A list that holds every vertex's bound bounds the palette that is built from the vertices.
pub proof fn lemma_palette_bounded(vertices: Seq<Vertex>, uv_bounds: Seq<UvBound>)
    requires
        bounds_listed(vertices, uv_bounds),
    ensures
        palette_of(vertices).no_duplicates(),
        palette_of(vertices).len() <= uv_bounds.len(),
{
    let bounds = vertex_bounds(vertices);
    let palette = palette_of(vertices);
    lemma_union(Seq::empty(), bounds, bounds.len() as int);
    assert(bounds.take(bounds.len() as int) =~= bounds);
    palette.unique_seq_to_set();
    assert forall|bound: UvBound| palette.to_set().contains(bound) implies uv_bounds.to_set().contains(
        bound,
    ) by {
        assert(palette.contains(bound));
        assert(bounds.contains(bound));
        let i = choose|i: int| 0 <= i < bounds.len() && bounds[i] == bound;
        assert(vertices[i].uv_bound == bound);
    }
    uv_bounds.lemma_cardinality_of_set();
    vstd::seq_lib::seq_to_set_is_finite(uv_bounds);
    vstd::set_lib::lemma_len_subset(palette.to_set(), uv_bounds.to_set());
}

} // verus!
