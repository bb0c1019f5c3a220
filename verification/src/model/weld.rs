//! Keys by which vertices are welded.

use crate::atlas::types::UvBound;
use crate::float_bits::{finite, is_finite, magnitude};
use crate::model::Vertex;
use vstd::prelude::*;

verus! {

/// Quantized attributes of a vertex, as bit patterns of whole numbers. An attribute that is not
/// finite or too large has none.
#[derive(Clone, Copy, Debug)]
pub struct QuantizedVertex {
    pub position: Option<[u32; 3]>,
    pub normal: Option<[u32; 3]>,
    pub uv: Option<[u32; 2]>,
    pub color: Option<[u32; 4]>,
}

/// Vertices with equal keys are welded: position, normal, texture coordinates, color, bound,
/// orientation, and what keeps a vertex apart.
pub type WeldKey = [u32; 18];

/// How many vertices could not be welded, and why.
#[derive(Clone, Copy, Debug, PartialEq, Eq, Structural)]
pub struct WeldKeyStats {
    pub ambiguous_alpha_orientation_count: usize,
    pub non_finite_vertex_count: usize,
    pub non_weldable_vertex_count: usize,
}

/// The bits of a finite number, with one pattern for both zeros.
pub open spec fn plain_bits(bits: u32) -> Option<u32> {
    if !finite(bits) {
        None
    } else if magnitude(bits) == 0 {
        Some(0)
    } else {
        Some(bits)
    }
}

/// The bits of a finite number, with one pattern for both zeros.
pub fn normalized_bits(bits: u32) -> (r: Option<u32>)
    ensures
        r == plain_bits(bits),
{
    if !is_finite(bits) {
        None
    } else if bits % 0x8000_0000 == 0 {
        Some(0)
    } else {
        Some(bits)
    }
}

/// The bits of a bound, where all its sides are finite.
pub open spec fn bound_bits(bound: UvBound) -> Option<[u32; 4]> {
    match (
        plain_bits(bound.min_y),
        plain_bits(bound.max_x),
        plain_bits(bound.min_x),
        plain_bits(bound.max_y),
    ) {
        (Some(a), Some(b), Some(c), Some(d)) => Some([a, b, c, d]),
        _ => None,
    }
}

/// The bits of a bound, where all its sides are finite.
pub fn uv_bound_bits(bound: UvBound) -> (r: Option<[u32; 4]>)
    ensures
        r == bound_bits(bound),
{
    match (
        normalized_bits(bound.min_y),
        normalized_bits(bound.max_x),
        normalized_bits(bound.min_x),
        normalized_bits(bound.max_y),
    ) {
        (Some(a), Some(b), Some(c), Some(d)) => Some([a, b, c, d]),
        _ => None,
    }
}

/// What keeps the vertex at a position apart from all others.
pub open spec fn tiebreak_of(index: int) -> u32 {
    if index < u32::MAX {
        (index + 1) as u32
    } else {
        u32::MAX
    }
}

/// What keeps the vertex at a position apart from all others; never 0.
pub fn vertex_tiebreak(index: usize) -> (r: u32)
    ensures
        r == tiebreak_of(index as int),
        r > 0,
{
    if (index as u64) < 0xffff_ffff {
        (index + 1) as u32
    } else {
        0xffff_ffff
    }
}

/// The key of a face direction: three components of eight levels, counted from 1.
pub open spec fn orientation_key(x: u32, y: u32, z: u32) -> u32 {
    (1 + x * 64 + y * 8 + z) as u32
}

/// The key of a face direction, from its components of eight levels. It is never 0, which stands
/// for a direction that is not clear.
pub fn pack_orientation(x: u32, y: u32, z: u32) -> (r: u32)
    requires
        x < 8,
        y < 8,
        z < 8,
    ensures
        r == orientation_key(x, y, z),
        0 < r <= 512,
{
    1 + x * 64 + y * 8 + z
}

/// Directions with one key are the same.
pub proof fn lemma_orientation_distinct(x: u32, y: u32, z: u32, a: u32, b: u32, c: u32)
    requires
        x < 8,
        y < 8,
        z < 8,
        a < 8,
        b < 8,
        c < 8,
        orientation_key(x, y, z) == orientation_key(a, b, c),
    ensures
        x == a && y == b && z == c,
{
}

/// Some attribute of the vertex has no finite form.
pub open spec fn is_broken(vertex: Vertex, lanes: QuantizedVertex) -> bool {
    ||| lanes.position is None
    ||| lanes.normal is None
    ||| lanes.uv is None
    ||| lanes.color is None
    ||| bound_bits(vertex.uv_bound) is None
}

/// The vertex is kept apart from all others.
pub open spec fn stays_apart(
    vertex: Vertex,
    lanes: QuantizedVertex,
    has_alpha: bool,
    orient: u32,
) -> bool {
    is_broken(vertex, lanes) || (has_alpha && orient == 0)
}

/// The lane, or 0 where there are none.
pub open spec fn lane3(lanes: Option<[u32; 3]>, i: int) -> u32 {
    match lanes {
        Some(lanes) => lanes@[i],
        None => 0,
    }
}

/// The lane, or 0 where there are none.
pub open spec fn lane2(lanes: Option<[u32; 2]>, i: int) -> u32 {
    match lanes {
        Some(lanes) => lanes@[i],
        None => 0,
    }
}

/// The lane, or 0 where there are none.
pub open spec fn lane4(lanes: Option<[u32; 4]>, i: int) -> u32 {
    match lanes {
        Some(lanes) => lanes@[i],
        None => 0,
    }
}

/// The weld key of a vertex.
pub open spec fn weld_key(
    vertex: Vertex,
    lanes: QuantizedVertex,
    has_alpha: bool,
    orient: u32,
    index: int,
) -> WeldKey {
    let bound = bound_bits(vertex.uv_bound);
    [
        lane3(lanes.position, 0),
        lane3(lanes.position, 1),
        lane3(lanes.position, 2),
        lane3(lanes.normal, 0),
        lane3(lanes.normal, 1),
        lane3(lanes.normal, 2),
        lane2(lanes.uv, 0),
        lane2(lanes.uv, 1),
        lane4(lanes.color, 0),
        lane4(lanes.color, 1),
        lane4(lanes.color, 2),
        lane4(lanes.color, 3),
        lane4(bound, 0),
        lane4(bound, 1),
        lane4(bound, 2),
        lane4(bound, 3),
        if has_alpha {
            orient
        } else {
            0
        },
        if stays_apart(vertex, lanes, has_alpha, orient) {
            tiebreak_of(index)
        } else {
            0
        },
    ]
}

/// The orientation key at a position; 0 past the end.
pub open spec fn orientation_at(keys: Seq<u32>, i: int) -> u32 {
    if i < keys.len() {
        keys[i]
    } else {
        0
    }
}

fn take3(lanes: &Option<[u32; 3]>) -> (r: [u32; 3])
    ensures
        r@[0] == lane3(*lanes, 0),
        r@[1] == lane3(*lanes, 1),
        r@[2] == lane3(*lanes, 2),
{
    match lanes {
        Some(lanes) => *lanes,
        None => [0, 0, 0],
    }
}

fn take2(lanes: &Option<[u32; 2]>) -> (r: [u32; 2])
    ensures
        r@[0] == lane2(*lanes, 0),
        r@[1] == lane2(*lanes, 1),
{
    match lanes {
        Some(lanes) => *lanes,
        None => [0, 0],
    }
}

fn take4(lanes: &Option<[u32; 4]>) -> (r: [u32; 4])
    ensures
        r@[0] == lane4(*lanes, 0),
        r@[1] == lane4(*lanes, 1),
        r@[2] == lane4(*lanes, 2),
        r@[3] == lane4(*lanes, 3),
{
    match lanes {
        Some(lanes) => *lanes,
        None => [0, 0, 0, 0],
    }
}

/// The weld key of a vertex, whether it is broken, and whether it stays apart.
fn key_vertex(
    vertex: &Vertex,
    lanes: &QuantizedVertex,
    has_alpha: bool,
    orient: u32,
    index: usize,
) -> (r: (WeldKey, bool, bool))
    ensures
        r.0 == weld_key(*vertex, *lanes, has_alpha, orient, index as int),
        r.1 == is_broken(*vertex, *lanes),
        r.2 == stays_apart(*vertex, *lanes, has_alpha, orient),
{
    let bound = uv_bound_bits(vertex.uv_bound);
    let broken: bool = lanes.position.is_none() || lanes.normal.is_none() || lanes.uv.is_none()
        || lanes.color.is_none() || bound.is_none();
    let apart: bool = broken || (has_alpha && orient == 0);
    let p = take3(&lanes.position);
    let n = take3(&lanes.normal);
    let t = take2(&lanes.uv);
    let c = take4(&lanes.color);
    let b = take4(&bound);
    let facing: u32 = if has_alpha {
        orient
    } else {
        0
    };
    let tiebreak: u32 = if apart {
        vertex_tiebreak(index)
    } else {
        0
    };
    let key: WeldKey = [
        p[0],
        p[1],
        p[2],
        n[0],
        n[1],
        n[2],
        t[0],
        t[1],
        c[0],
        c[1],
        c[2],
        c[3],
        b[0],
        b[1],
        b[2],
        b[3],
        facing,
        tiebreak,
    ];
    assert(key@ =~= weld_key(*vertex, *lanes, has_alpha, orient, index as int)@);
    (key, broken, apart)
}

/// How many of the first `end` vertices are broken.
pub open spec fn broken_before(vertices: Seq<Vertex>, lanes: Seq<QuantizedVertex>, end: int) -> nat
    decreases end,
{
    if end <= 0 {
        0
    } else {
        broken_before(vertices, lanes, end - 1) + if is_broken(vertices[end - 1], lanes[end - 1]) {
            1nat
        } else {
            0nat
        }
    }
}

/// How many of the first `end` vertices stay apart.
pub open spec fn apart_before(
    vertices: Seq<Vertex>,
    lanes: Seq<QuantizedVertex>,
    has_alpha: bool,
    orientations: Seq<u32>,
    end: int,
) -> nat
    decreases end,
{
    if end <= 0 {
        0
    } else {
        apart_before(vertices, lanes, has_alpha, orientations, end - 1) + if stays_apart(
            vertices[end - 1],
            lanes[end - 1],
            has_alpha,
            orientation_at(orientations, end - 1),
        ) {
            1nat
        } else {
            0nat
        }
    }
}

/// How many of the first `end` vertices have no clear orientation.
pub open spec fn unclear_before(orientations: Seq<u32>, end: int) -> nat
    decreases end,
{
    if end <= 0 {
        0
    } else {
        unclear_before(orientations, end - 1) + if orientation_at(orientations, end - 1) == 0 {
            1nat
        } else {
            0nat
        }
    }
}

/// The weld keys of vertices, from their quantized attributes and, for subsets with alpha, the
/// orientation of their faces.
pub fn build_weld_keys(
    vertices: &[Vertex],
    lanes: &[QuantizedVertex],
    has_alpha: bool,
    orientation_keys: &[u32],
) -> (r: (Vec<WeldKey>, WeldKeyStats))
    requires
        lanes@.len() == vertices@.len(),
    ensures
        r.0@.len() == vertices@.len(),
        forall|i: int|
            0 <= i < vertices@.len() ==> #[trigger] r.0@[i] == weld_key(
                vertices@[i],
                lanes@[i],
                has_alpha,
                orientation_at(orientation_keys@, i),
                i,
            ),
        r.1.non_finite_vertex_count == broken_before(
            vertices@,
            lanes@,
            vertices@.len() as int,
        ),
        r.1.non_weldable_vertex_count == apart_before(
            vertices@,
            lanes@,
            has_alpha,
            orientation_keys@,
            vertices@.len() as int,
        ),
        r.1.ambiguous_alpha_orientation_count == if has_alpha {
            unclear_before(orientation_keys@, vertices@.len() as int)
        } else {
            0
        },
{
    let count: usize = vertices.len();
    let mut keys: Vec<WeldKey> = Vec::new();
    let mut broken_count: usize = 0;
    let mut apart_count: usize = 0;
    let mut unclear_count: usize = 0;
    let mut i: usize = 0;
    while i < count
        invariant
            i <= count,
            count == vertices@.len(),
            lanes@.len() == count,
            keys@.len() == i,
            forall|k: int|
                0 <= k < i ==> #[trigger] keys@[k] == weld_key(
                    vertices@[k],
                    lanes@[k],
                    has_alpha,
                    orientation_at(orientation_keys@, k),
                    k,
                ),
            broken_count <= i,
            apart_count <= i,
            unclear_count <= i,
            broken_count == broken_before(vertices@, lanes@, i as int),
            apart_count == apart_before(
                vertices@,
                lanes@,
                has_alpha,
                orientation_keys@,
                i as int,
            ),
            unclear_count == if has_alpha {
                unclear_before(orientation_keys@, i as int)
            } else {
                0
            },
        decreases count - i,
    {
        let orient: u32 = if i < orientation_keys.len() {
            orientation_keys[i]
        } else {
            0
        };
        let (key, broken, apart) = key_vertex(&vertices[i], &lanes[i], has_alpha, orient, i);
        keys.push(key);
        if broken {
            broken_count = broken_count + 1;
        }
        if apart {
            apart_count = apart_count + 1;
        }
        if has_alpha && orient == 0 {
            unclear_count = unclear_count + 1;
        }
        i = i + 1;
    }
    let stats = WeldKeyStats {
        ambiguous_alpha_orientation_count: unclear_count,
        non_finite_vertex_count: broken_count,
        non_weldable_vertex_count: apart_count,
    };
    (keys, stats)
}

/// A vertex that stays apart has a key of its own, as long as positions fit 32 bits.
pub proof fn lemma_apart_unique(
    a: Vertex,
    b: Vertex,
    a_lanes: QuantizedVertex,
    b_lanes: QuantizedVertex,
    has_alpha: bool,
    a_orient: u32,
    b_orient: u32,
    i: int,
    j: int,
)
    requires
        0 <= i < u32::MAX,
        0 <= j < u32::MAX,
        i != j,
        stays_apart(a, a_lanes, has_alpha, a_orient),
    ensures
        weld_key(a, a_lanes, has_alpha, a_orient, i) != weld_key(
            b,
            b_lanes,
            has_alpha,
            b_orient,
            j,
        ),
{
    let ka = weld_key(a, a_lanes, has_alpha, a_orient, i);
    let kb = weld_key(b, b_lanes, has_alpha, b_orient, j);
    assert(ka@[17] == tiebreak_of(i));
    assert(kb@[17] == tiebreak_of(j) || kb@[17] == 0);
}

/// In subsets with alpha, vertices whose faces point apart are never welded.
pub proof fn lemma_orientations_apart(
    a: Vertex,
    b: Vertex,
    a_lanes: QuantizedVertex,
    b_lanes: QuantizedVertex,
    a_orient: u32,
    b_orient: u32,
    i: int,
    j: int,
)
    requires
        a_orient != b_orient,
    ensures
        weld_key(a, a_lanes, true, a_orient, i) != weld_key(b, b_lanes, true, b_orient, j),
{
    let ka = weld_key(a, a_lanes, true, a_orient, i);
    let kb = weld_key(b, b_lanes, true, b_orient, j);
    assert(ka@[16] == a_orient);
    assert(kb@[16] == b_orient);
}

} // verus!
