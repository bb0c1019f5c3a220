//! Bounding boxes and spheres.

use crate::float_bits::{below, finite, is_finite, lanes_finite, number_lt};
use crate::model::merge::{views, with_geometry, SubsetView};
use crate::model::{
    tiles, Bound, BoundingBox, DistantStatic, MergedComponent, Subset, Vertex,
};
use vstd::prelude::*;

verus! {

/// The position is made of finite numbers.
pub open spec fn lies_somewhere(vertex: Vertex) -> bool {
    finite(vertex.position@[0]) && finite(vertex.position@[1]) && finite(vertex.position@[2])
}

/// The number is the lane of some vertex that lies somewhere.
pub open spec fn is_lane_of(vertices: Seq<Vertex>, lane: int, value: u32) -> bool {
    exists|i: int|
        0 <= i < vertices.len() && lies_somewhere(#[trigger] vertices[i])
            && vertices[i].position@[lane] == value
}

/// The box is the smallest around the vertices that lie somewhere: no lane of any of them is beyond
/// it, and each of its sides is touched.
pub open spec fn is_box_of(vertices: Seq<Vertex>, r: BoundingBox) -> bool {
    &&& forall|lane: int|
        0 <= lane < 3 ==> is_lane_of(vertices, lane, #[trigger] r.min@[lane])
    &&& forall|lane: int|
        0 <= lane < 3 ==> is_lane_of(vertices, lane, #[trigger] r.max@[lane])
    &&& forall|i: int, lane: int|
        0 <= i < vertices.len() && 0 <= lane < 3 && lies_somewhere(vertices[i]) ==> !below(
            #[trigger] vertices[i].position@[lane],
            r.min@[lane],
        ) && !below(r.max@[lane], vertices[i].position@[lane])
}

/// Some vertex lies somewhere.
pub open spec fn any_lies_somewhere(vertices: Seq<Vertex>) -> bool {
    exists|i: int| 0 <= i < vertices.len() && lies_somewhere(#[trigger] vertices[i])
}

fn lower(a: u32, b: u32) -> (r: u32)
    requires
        finite(a),
        finite(b),
    ensures
        r == a || r == b,
        finite(r),
        !below(a, r),
        !below(b, r),
{
    if number_lt(b, a) {
        b
    } else {
        a
    }
}

fn upper(a: u32, b: u32) -> (r: u32)
    requires
        finite(a),
        finite(b),
    ensures
        r == a || r == b,
        finite(r),
        !below(r, a),
        !below(r, b),
{
    if number_lt(a, b) {
        b
    } else {
        a
    }
}

/// All lanes of the box are finite.
pub open spec fn box_finite(r: BoundingBox) -> bool {
    &&& finite(r.min@[0]) && finite(r.min@[1]) && finite(r.min@[2])
    &&& finite(r.max@[0]) && finite(r.max@[1]) && finite(r.max@[2])
}

fn widened(b: &BoundingBox, p: &[u32; 3]) -> (r: BoundingBox)
    requires
        box_finite(*b),
        finite(p@[0]) && finite(p@[1]) && finite(p@[2]),
    ensures
        box_finite(r),
        forall|lane: int|
            0 <= lane < 3 ==> (#[trigger] r.min@[lane] == b.min@[lane] || r.min@[lane] == p@[lane])
                && !below(b.min@[lane], r.min@[lane]) && !below(p@[lane], r.min@[lane]),
        forall|lane: int|
            0 <= lane < 3 ==> (#[trigger] r.max@[lane] == b.max@[lane] || r.max@[lane] == p@[lane])
                && !below(r.max@[lane], b.max@[lane]) && !below(r.max@[lane], p@[lane]),
{
    let r = BoundingBox {
        min: [lower(b.min[0], p[0]), lower(b.min[1], p[1]), lower(b.min[2], p[2])],
        max: [upper(b.max[0], p[0]), upper(b.max[1], p[1]), upper(b.max[2], p[2])],
    };
    assert forall|lane: int| 0 <= lane < 3 implies (#[trigger] r.min@[lane] == b.min@[lane]
        || r.min@[lane] == p@[lane]) && !below(b.min@[lane], r.min@[lane]) && !below(
        p@[lane],
        r.min@[lane],
    ) by {
        assert(lane == 0 || lane == 1 || lane == 2);
    }
    assert forall|lane: int| 0 <= lane < 3 implies (#[trigger] r.max@[lane] == b.max@[lane]
        || r.max@[lane] == p@[lane]) && !below(r.max@[lane], b.max@[lane]) && !below(
        r.max@[lane],
        p@[lane],
    ) by {
        assert(lane == 0 || lane == 1 || lane == 2);
    }
    r
}

proof fn lemma_widened(vertices: Seq<Vertex>, i: int, b: BoundingBox, r: BoundingBox)
    requires
        0 <= i < vertices.len(),
        lies_somewhere(vertices[i]),
        is_box_of(vertices.take(i), b),
        box_finite(b),
        box_finite(r),
        forall|lane: int|
            0 <= lane < 3 ==> (#[trigger] r.min@[lane] == b.min@[lane] || r.min@[lane]
                == vertices[i].position@[lane]) && !below(b.min@[lane], r.min@[lane]) && !below(
                vertices[i].position@[lane],
                r.min@[lane],
            ),
        forall|lane: int|
            0 <= lane < 3 ==> (#[trigger] r.max@[lane] == b.max@[lane] || r.max@[lane]
                == vertices[i].position@[lane]) && !below(r.max@[lane], b.max@[lane]) && !below(
                r.max@[lane],
                vertices[i].position@[lane],
            ),
    ensures
        is_box_of(vertices.take(i + 1), r),
{
    let front = vertices.take(i);
    let next = vertices.take(i + 1);
    assert forall|lane: int| 0 <= lane < 3 implies is_lane_of(
        next,
        lane,
        #[trigger] r.min@[lane],
    ) by {
        assert(next[i] == vertices[i]);
        assert(is_lane_of(front, lane, b.min@[lane]));
        let k = choose|k: int|
            0 <= k < front.len() && lies_somewhere(#[trigger] front[k])
                && front[k].position@[lane] == b.min@[lane];
        assert(next[k] == front[k]);
    }
    assert forall|lane: int| 0 <= lane < 3 implies is_lane_of(
        next,
        lane,
        #[trigger] r.max@[lane],
    ) by {
        assert(next[i] == vertices[i]);
        assert(is_lane_of(front, lane, b.max@[lane]));
        let k = choose|k: int|
            0 <= k < front.len() && lies_somewhere(#[trigger] front[k])
                && front[k].position@[lane] == b.max@[lane];
        assert(next[k] == front[k]);
    }
    assert forall|k: int, lane: int|
        0 <= k < next.len() && 0 <= lane < 3 && lies_somewhere(next[k]) implies !below(
        #[trigger] next[k].position@[lane],
        r.min@[lane],
    ) && !below(r.max@[lane], next[k].position@[lane]) by {
        assert(lane == 0 || lane == 1 || lane == 2);
        if k < i {
            assert(next[k] == front[k]);
            assert(!below(front[k].position@[lane], b.min@[lane]));
            assert(!below(b.max@[lane], front[k].position@[lane]));
            assert(!below(b.min@[lane], r.min@[lane]));
            assert(!below(r.max@[lane], b.max@[lane]));
            assert(finite(front[k].position@[lane]));
        } else {
            assert(next[k] == vertices[i]);
        }
    }
}

proof fn lemma_first_box(vertices: Seq<Vertex>, i: int)
    requires
        0 <= i < vertices.len(),
        lies_somewhere(vertices[i]),
        !any_lies_somewhere(vertices.take(i)),
    ensures
        is_box_of(
            vertices.take(i + 1),
            BoundingBox { min: vertices[i].position, max: vertices[i].position },
        ),
{
    let front = vertices.take(i);
    let next = vertices.take(i + 1);
    let r = BoundingBox { min: vertices[i].position, max: vertices[i].position };
    assert(next[i] == vertices[i]);
    assert forall|k: int, lane: int|
        0 <= k < next.len() && 0 <= lane < 3 && lies_somewhere(next[k]) implies !below(
        #[trigger] next[k].position@[lane],
        r.min@[lane],
    ) && !below(r.max@[lane], next[k].position@[lane]) by {
        if k < i {
            assert(front[k] == next[k]);
            assert(any_lies_somewhere(front));
        }
    }
}

/// The bounding box of the vertices that lie somewhere, where there are any. Sides are compared as
/// numbers, so that either zero may stand for both.
pub fn bounding_box_of(vertices: &[Vertex]) -> (r: Option<BoundingBox>)
    ensures
        match r {
            Some(found) => any_lies_somewhere(vertices@) && is_box_of(vertices@, found)
                && box_finite(found),
            None => !any_lies_somewhere(vertices@),
        },
{
    let mut found: Option<BoundingBox> = None;
    let mut i: usize = 0;
    while i < vertices.len()
        invariant
            i <= vertices@.len(),
            match found {
                Some(b) => is_box_of(vertices@.take(i as int), b) && box_finite(b),
                None => !any_lies_somewhere(vertices@.take(i as int)),
            },
        decreases vertices@.len() - i,
    {
        let vertex = vertices[i];
        let ghost next = vertices@.take(i + 1);
        if lanes_finite(&vertex.position) {
            match found {
                Some(b) => {
                    let wide = widened(&b, &vertex.position);
                    proof {
                        lemma_widened(vertices@, i as int, b, wide);
                    }
                    found = Some(wide);
                },
                None => {
                    proof {
                        lemma_first_box(vertices@, i as int);
                    }
                    found = Some(BoundingBox { min: vertex.position, max: vertex.position });
                },
            }
        } else {
            proof {
                let front = vertices@.take(i as int);
                assert(next[i as int] == vertex);
                lemma_skipped(vertices@, i as int, found);
            }
        }
        i = i + 1;
    }
    assert(vertices@.take(i as int) =~= vertices@);
    proof {
        if let Some(b) = found {
            assert(is_lane_of(vertices@, 0, b.min@[0]));
        }
    }
    found
}

proof fn lemma_skipped(vertices: Seq<Vertex>, i: int, found: Option<BoundingBox>)
    requires
        0 <= i < vertices.len(),
        !lies_somewhere(vertices[i]),
        match found {
            Some(b) => is_box_of(vertices.take(i), b),
            None => !any_lies_somewhere(vertices.take(i)),
        },
    ensures
        match found {
            Some(b) => is_box_of(vertices.take(i + 1), b),
            None => !any_lies_somewhere(vertices.take(i + 1)),
        },
{
    let front = vertices.take(i);
    let next = vertices.take(i + 1);
    if let Some(b) = found {
        assert forall|lane: int| 0 <= lane < 3 implies is_lane_of(
            next,
            lane,
            #[trigger] b.min@[lane],
        ) by {
            assert(is_lane_of(front, lane, b.min@[lane]));
            let k = choose|k: int|
                0 <= k < front.len() && lies_somewhere(#[trigger] front[k])
                    && front[k].position@[lane] == b.min@[lane];
            assert(next[k] == front[k]);
        }
        assert forall|lane: int| 0 <= lane < 3 implies is_lane_of(
            next,
            lane,
            #[trigger] b.max@[lane],
        ) by {
            assert(is_lane_of(front, lane, b.max@[lane]));
            let k = choose|k: int|
                0 <= k < front.len() && lies_somewhere(#[trigger] front[k])
                    && front[k].position@[lane] == b.max@[lane];
            assert(next[k] == front[k]);
        }
        assert forall|k: int, lane: int|
            0 <= k < next.len() && 0 <= lane < 3 && lies_somewhere(next[k]) implies !below(
            #[trigger] next[k].position@[lane],
            b.min@[lane],
        ) && !below(b.max@[lane], next[k].position@[lane]) by {
            assert(k < i);
            assert(front[k] == next[k]);
            assert(!below(front[k].position@[lane], b.min@[lane]));
        }
    } else {
        if any_lies_somewhere(next) {
            let k = choose|k: int| 0 <= k < next.len() && lies_somewhere(#[trigger] next[k]);
            assert(k < i);
            assert(front[k] == next[k]);
            assert(any_lies_somewhere(front));
        }
    }
}

/// `join` answers every question, each with one answer.
pub open spec fn joins<J: Fn(Bound, Bound) -> Bound>(join: J) -> bool {
    &&& forall|a: Bound, b: Bound| #[trigger] call_requires(join, (a, b))
    &&& forall|a: Bound, b: Bound, x: Bound, y: Bound| #[trigger]
        call_ensures(join, (a, b), x) && #[trigger] call_ensures(join, (a, b), y) ==> x == y
}

/// The answer of `join`.
pub open spec fn joined<J: Fn(Bound, Bound) -> Bound>(join: J, a: Bound, b: Bound) -> Bound {
    choose|x: Bound| call_ensures(join, (a, b), x)
}

/// The sphere of a component.
pub open spec fn component_sphere(component: MergedComponent) -> Bound {
    Bound { center: component.center, radius: component.radius }
}

/// The component's sphere is made of finite numbers, and its radius is not negative.
pub open spec fn sphere_usable(component: MergedComponent) -> bool {
    &&& finite(component.center@[0]) && finite(component.center@[1]) && finite(component.center@[2])
    &&& finite(component.radius)
    &&& !below(component.radius, 0)
}

/// The first `end` spheres joined in order.
pub open spec fn spheres_joined<J: Fn(Bound, Bound) -> Bound>(
    join: J,
    components: Seq<MergedComponent>,
    end: int,
) -> Bound
    decreases end,
{
    if end <= 1 {
        component_sphere(components[0])
    } else {
        joined(
            join,
            spheres_joined(join, components, end - 1),
            component_sphere(components[end - 1]),
        )
    }
}

/// The sphere around a subset by its components: where they tile its triangles and all their
/// spheres are usable.
pub open spec fn sphere_by_components<J: Fn(Bound, Bound) -> Bound>(
    join: J,
    subset: Subset,
) -> Option<Bound> {
    let components = subset.components@;
    if components.len() == 0 || subset.triangles@.len() > u32::MAX || !tiles(
        components,
        subset.triangles@.len() as int,
    ) || exists|
        i: int,
    |
        0 <= i < components.len() && !sphere_usable(#[trigger] components[i]) {
        None
    } else {
        Some(spheres_joined(join, components, components.len() as int))
    }
}

impl Subset {
    /// The sphere around the subset by its components.
    pub fn component_bounding_sphere<J: Fn(Bound, Bound) -> Bound>(&self, join: &J) -> (r: Option<
        Bound,
    >)
        requires
            joins(*join),
        ensures
            r == sphere_by_components(*join, *self),
    {
        if self.components.len() == 0 || !self.components_tile_triangles() {
            return None;
        }
        let mut bound = Bound {
            center: self.components[0].center,
            radius: self.components[0].radius,
        };
        let mut i: usize = 0;
        while i < self.components.len()
            invariant
                i <= self.components@.len(),
                self.components@.len() > 0,
                joins(*join),
                forall|k: int| 0 <= k < i ==> sphere_usable(#[trigger] self.components@[k]),
                bound == spheres_joined(*join, self.components@, i as int),
            decreases self.components@.len() - i,
        {
            let component = self.components[i];
            if !lanes_finite(&component.center) || !is_finite(component.radius) || number_lt(
                component.radius,
                0,
            ) {
                assert(!sphere_usable(self.components@[i as int]));
                return None;
            }
            if i > 0 {
                bound =
                join(bound, Bound { center: component.center, radius: component.radius });
            }
            i = i + 1;
        }
        Some(bound)
    }

    /// Computes the bounds of the subset. `enclose` gives the sphere around the positions of
    /// vertices. A subset of which nothing lies anywhere has no extent.
    pub fn update_bounds_with<J: Fn(Bound, Bound) -> Bound, E: Fn(&Vec<Vertex>) -> Bound>(
        &mut self,
        join: &J,
        enclose: &E,
    )
        requires
            joins(*join),
            forall|v: Vec<Vertex>| #[trigger] call_requires(*enclose, (&v,)),
        ensures
            final(self).vertices == old(self).vertices,
            final(self).triangles == old(self).triangles,
            final(self).components == old(self).components,
            final(self).uv_bounds == old(self).uv_bounds,
            final(self).has_alpha == old(self).has_alpha,
            final(self).has_uv_controller == old(self).has_uv_controller,
            final(self).emissive == old(self).emissive,
            final(self).texture == old(self).texture,
            box_finite(final(self).bounding_box),
            if any_lies_somewhere(old(self).vertices@) {
                &&& is_box_of(old(self).vertices@, final(self).bounding_box)
                &&& match sphere_by_components(*join, *old(self)) {
                    Some(bound) => final(self).bounding_sphere == bound,
                    None => call_ensures(
                        *enclose,
                        (&old(self).vertices,),
                        final(self).bounding_sphere,
                    ),
                }
            } else {
                &&& final(self).bounding_sphere == (Bound { center: [0, 0, 0], radius: 0 })
                &&& final(self).bounding_box == (BoundingBox { min: [0, 0, 0], max: [0, 0, 0] })
            },
    {
        match bounding_box_of(self.vertices.as_slice()) {
            Some(found) => {
                let sphere = match self.component_bounding_sphere(join) {
                    Some(bound) => bound,
                    None => enclose(&self.vertices),
                };
                self.bounding_box = found;
                self.bounding_sphere = sphere;
            },
            None => {
                self.bounding_sphere = Bound { center: [0, 0, 0], radius: 0 };
                self.bounding_box = BoundingBox { min: [0, 0, 0], max: [0, 0, 0] };
            },
        }
    }
}

/// The number is the lane of some box's lower corner.
pub open spec fn is_min_of(boxes: Seq<BoundingBox>, lane: int, value: u32) -> bool {
    exists|i: int| 0 <= i < boxes.len() && (#[trigger] boxes[i]).min@[lane] == value
}

/// The number is the lane of some box's upper corner.
pub open spec fn is_max_of(boxes: Seq<BoundingBox>, lane: int, value: u32) -> bool {
    exists|i: int| 0 <= i < boxes.len() && (#[trigger] boxes[i]).max@[lane] == value
}

/// The box is the smallest around the boxes.
pub open spec fn is_box_around(boxes: Seq<BoundingBox>, r: BoundingBox) -> bool {
    &&& forall|lane: int| 0 <= lane < 3 ==> is_min_of(boxes, lane, #[trigger] r.min@[lane])
    &&& forall|lane: int| 0 <= lane < 3 ==> is_max_of(boxes, lane, #[trigger] r.max@[lane])
    &&& forall|i: int, lane: int|
        #![trigger boxes[i].min@[lane]]
        0 <= i < boxes.len() && 0 <= lane < 3 ==> !below(boxes[i].min@[lane], r.min@[lane])
            && !below(r.max@[lane], boxes[i].max@[lane])
}

fn joined_box(a: &BoundingBox, b: &BoundingBox) -> (r: BoundingBox)
    requires
        box_finite(*a),
        box_finite(*b),
    ensures
        box_finite(r),
        forall|lane: int|
            0 <= lane < 3 ==> (#[trigger] r.min@[lane] == a.min@[lane] || r.min@[lane]
                == b.min@[lane]) && !below(a.min@[lane], r.min@[lane]) && !below(
                b.min@[lane],
                r.min@[lane],
            ),
        forall|lane: int|
            0 <= lane < 3 ==> (#[trigger] r.max@[lane] == a.max@[lane] || r.max@[lane]
                == b.max@[lane]) && !below(r.max@[lane], a.max@[lane]) && !below(
                r.max@[lane],
                b.max@[lane],
            ),
{
    let r = BoundingBox {
        min: [lower(a.min[0], b.min[0]), lower(a.min[1], b.min[1]), lower(a.min[2], b.min[2])],
        max: [upper(a.max[0], b.max[0]), upper(a.max[1], b.max[1]), upper(a.max[2], b.max[2])],
    };
    assert forall|lane: int| 0 <= lane < 3 implies (#[trigger] r.min@[lane] == a.min@[lane]
        || r.min@[lane] == b.min@[lane]) && !below(a.min@[lane], r.min@[lane]) && !below(
        b.min@[lane],
        r.min@[lane],
    ) by {
        assert(lane == 0 || lane == 1 || lane == 2);
    }
    assert forall|lane: int| 0 <= lane < 3 implies (#[trigger] r.max@[lane] == a.max@[lane]
        || r.max@[lane] == b.max@[lane]) && !below(r.max@[lane], a.max@[lane]) && !below(
        r.max@[lane],
        b.max@[lane],
    ) by {
        assert(lane == 0 || lane == 1 || lane == 2);
    }
    r
}

proof fn lemma_box_joined(boxes: Seq<BoundingBox>, i: int, a: BoundingBox, r: BoundingBox)
    requires
        0 <= i < boxes.len(),
        is_box_around(boxes.take(i), a),
        box_finite(a),
        box_finite(r),
        forall|k: int| 0 <= k < boxes.len() ==> box_finite(#[trigger] boxes[k]),
        forall|lane: int|
            0 <= lane < 3 ==> (#[trigger] r.min@[lane] == a.min@[lane] || r.min@[lane]
                == boxes[i].min@[lane]) && !below(a.min@[lane], r.min@[lane]) && !below(
                boxes[i].min@[lane],
                r.min@[lane],
            ),
        forall|lane: int|
            0 <= lane < 3 ==> (#[trigger] r.max@[lane] == a.max@[lane] || r.max@[lane]
                == boxes[i].max@[lane]) && !below(r.max@[lane], a.max@[lane]) && !below(
                r.max@[lane],
                boxes[i].max@[lane],
            ),
    ensures
        is_box_around(boxes.take(i + 1), r),
{
    let front = boxes.take(i);
    let next = boxes.take(i + 1);
    assert(next[i] == boxes[i]);
    assert forall|lane: int| 0 <= lane < 3 implies is_min_of(next, lane, #[trigger] r.min@[lane]) by {
        assert(is_min_of(front, lane, a.min@[lane]));
        let k = choose|k: int|
            0 <= k < front.len() && (#[trigger] front[k]).min@[lane] == a.min@[lane];
        assert(next[k] == front[k]);
    }
    assert forall|lane: int| 0 <= lane < 3 implies is_max_of(next, lane, #[trigger] r.max@[lane]) by {
        assert(is_max_of(front, lane, a.max@[lane]));
        let k = choose|k: int|
            0 <= k < front.len() && (#[trigger] front[k]).max@[lane] == a.max@[lane];
        assert(next[k] == front[k]);
    }
    assert forall|k: int, lane: int|
        #![trigger next[k].min@[lane]]
        0 <= k < next.len() && 0 <= lane < 3 implies !below(next[k].min@[lane], r.min@[lane])
        && !below(r.max@[lane], next[k].max@[lane]) by {
        assert(lane == 0 || lane == 1 || lane == 2);
        assert(box_finite(boxes[k]));
        if k < i {
            assert(next[k] == front[k]);
            assert(!below(front[k].min@[lane], a.min@[lane]));
            assert(!below(a.min@[lane], r.min@[lane]));
            assert(!below(r.max@[lane], a.max@[lane]));
        }
    }
}

/// The boxes of the subsets.
pub open spec fn boxes_of(subsets: Seq<Subset>) -> Seq<BoundingBox> {
    subsets.map_values(|subset: Subset| subset.bounding_box)
}

/// The spheres of the first `end` subsets joined in order.
pub open spec fn subset_spheres<J: Fn(Bound, Bound) -> Bound>(
    join: J,
    subsets: Seq<Subset>,
    end: int,
) -> Bound
    decreases end,
{
    if end <= 1 {
        subsets[0].bounding_sphere
    } else {
        joined(join, subset_spheres(join, subsets, end - 1), subsets[end - 1].bounding_sphere)
    }
}

impl DistantStatic {
    /// Computes the bounds of the static from those of its subsets. A static without subsets has no
    /// extent.
    pub fn update_bounds_from_subsets<J: Fn(Bound, Bound) -> Bound>(&mut self, join: &J)
        requires
            joins(*join),
            forall|i: int|
                0 <= i < old(self).subsets@.len() ==> box_finite(
                    (#[trigger] old(self).subsets@[i]).bounding_box,
                ),
        ensures
            final(self).static_type == old(self).static_type,
            final(self).subsets == old(self).subsets,
            final(self).max_scale == old(self).max_scale,
            final(self).is_door == old(self).is_door,
            final(self).horizon_footprint_eligible == old(self).horizon_footprint_eligible,
            if old(self).subsets@.len() == 0 {
                &&& final(self).bounding_sphere == (Bound { center: [0, 0, 0], radius: 0 })
                &&& final(self).bounding_box == (BoundingBox { min: [0, 0, 0], max: [0, 0, 0] })
            } else {
                &&& final(self).bounding_sphere == subset_spheres(
                    *join,
                    old(self).subsets@,
                    old(self).subsets@.len() as int,
                )
                &&& is_box_around(boxes_of(old(self).subsets@), final(self).bounding_box)
            },
    {
        let count: usize = self.subsets.len();
        if count == 0 {
            self.bounding_sphere = Bound { center: [0, 0, 0], radius: 0 };
            self.bounding_box = BoundingBox { min: [0, 0, 0], max: [0, 0, 0] };
            return;
        }
        let ghost boxes = boxes_of(self.subsets@);
        let ghost subsets = self.subsets@;
        proof {
            assert forall|k: int| 0 <= k < boxes.len() implies box_finite(#[trigger] boxes[k]) by {
                assert(box_finite(subsets[k].bounding_box));
            }
            assert(boxes.take(1)[0] == boxes[0]);
        }
        let mut sphere = self.subsets[0].bounding_sphere;
        let mut around = self.subsets[0].bounding_box;
        let mut i: usize = 1;
        while i < count
            invariant
                1 <= i <= count,
                count == self.subsets@.len(),
                subsets == self.subsets@,
                boxes == boxes_of(subsets),
                joins(*join),
                forall|k: int| 0 <= k < boxes.len() ==> box_finite(#[trigger] boxes[k]),
                box_finite(around),
                is_box_around(boxes.take(i as int), around),
                sphere == subset_spheres(*join, subsets, i as int),
            decreases count - i,
        {
            let ghost before = around;
            proof {
                assert(box_finite(boxes[i as int]));
                assert(boxes[i as int] == subsets[i as int].bounding_box);
            }
            sphere = join(sphere, self.subsets[i].bounding_sphere);
            around = joined_box(&around, &self.subsets[i].bounding_box);
            proof {
                lemma_box_joined(boxes, i as int, before, around);
            }
            i = i + 1;
        }
        assert(boxes.take(i as int) =~= boxes);
        self.bounding_sphere = sphere;
        self.bounding_box = around;
    }
}

/// The subset is the one before but for its bounds, which are computed from its geometry: the box
/// is that of its vertices, and the sphere is by its components, else the one that `enclose` gives.
pub open spec fn bounds_updated<J: Fn(Bound, Bound) -> Bound, E: Fn(&Vec<Vertex>) -> Bound>(
    join: J,
    enclose: E,
    before: SubsetView,
    after: Subset,
) -> bool {
    &&& after@ == SubsetView {
        bounding_sphere: after.bounding_sphere,
        bounding_box: after.bounding_box,
        ..before
    }
    &&& box_finite(after.bounding_box)
    &&& if any_lies_somewhere(before.vertices) {
        &&& is_box_of(before.vertices, after.bounding_box)
        &&& match sphere_by_components(join, after) {
            Some(bound) => after.bounding_sphere == bound,
            None => call_ensures(enclose, (&after.vertices,), after.bounding_sphere),
        }
    } else {
        &&& after.bounding_sphere == (Bound { center: [0, 0, 0], radius: 0 })
        &&& after.bounding_box == (BoundingBox { min: [0, 0, 0], max: [0, 0, 0] })
    }
}

/// The static is bounded by its subsets.
pub open spec fn bounded_by_subsets<J: Fn(Bound, Bound) -> Bound>(
    join: J,
    whole: DistantStatic,
) -> bool {
    if whole.subsets@.len() == 0 {
        &&& whole.bounding_sphere == (Bound { center: [0, 0, 0], radius: 0 })
        &&& whole.bounding_box == (BoundingBox { min: [0, 0, 0], max: [0, 0, 0] })
    } else {
        &&& whole.bounding_sphere == subset_spheres(
            join,
            whole.subsets@,
            whole.subsets@.len() as int,
        )
        &&& is_box_around(boxes_of(whole.subsets@), whole.bounding_box)
    }
}

/// Every subset has the geometry of its place, with its bounds computed.
pub open spec fn all_bounds_updated<J: Fn(Bound, Bound) -> Bound, E: Fn(&Vec<Vertex>) -> Bound>(
    join: J,
    enclose: E,
    before: Seq<SubsetView>,
    after: Seq<Subset>,
) -> bool {
    &&& after.len() == before.len()
    &&& forall|i: int|
        0 <= i < after.len() ==> bounds_updated(join, enclose, before[i], #[trigger] after[i])
}

impl DistantStatic {
    /// Drops subsets without geometry and computes all bounds anew.
    pub fn update_bounds<J: Fn(Bound, Bound) -> Bound, E: Fn(&Vec<Vertex>) -> Bound>(
        &mut self,
        join: &J,
        enclose: &E,
    )
        requires
            joins(*join),
            forall|v: Vec<Vertex>| #[trigger] call_requires(*enclose, (&v,)),
        ensures
            final(self).static_type == old(self).static_type,
            final(self).max_scale == old(self).max_scale,
            final(self).is_door == old(self).is_door,
            final(self).horizon_footprint_eligible == old(self).horizon_footprint_eligible,
            all_bounds_updated(
                *join,
                *enclose,
                with_geometry(views(old(self).subsets@), old(self).subsets@.len() as int),
                final(self).subsets@,
            ),
            bounded_by_subsets(*join, *final(self)),
    {
        self.discard_empty_subsets();
        let ghost kept = self.subsets@;
        let count: usize = self.subsets.len();
        let mut i: usize = 0;
        while i < count
            invariant
                i <= count,
                count == self.subsets@.len(),
                kept.len() == count,
                joins(*join),
                forall|v: Vec<Vertex>| #[trigger] call_requires(*enclose, (&v,)),
                forall|k: int|
                    0 <= k < i ==> bounds_updated(
                        *join,
                        *enclose,
                        kept[k]@,
                        #[trigger] self.subsets@[k],
                    ),
                forall|k: int| i <= k < count ==> #[trigger] self.subsets@[k] == kept[k],
                self.static_type == old(self).static_type,
                self.max_scale == old(self).max_scale,
                self.is_door == old(self).is_door,
                self.horizon_footprint_eligible == old(self).horizon_footprint_eligible,
            decreases count - i,
        {
            let ghost all = self.subsets@;
            let subset: &mut Subset = &mut self.subsets[i];
            subset.update_bounds_with(join, enclose);
            proof {
                assert(all[i as int] == kept[i as int]);
                let after = self.subsets@[i as int];
                assert(after@ =~= SubsetView {
                    bounding_sphere: after.bounding_sphere,
                    bounding_box: after.bounding_box,
                    ..kept[i as int]@
                });
                assert(bounds_updated(*join, *enclose, kept[i as int]@, after));
            }
            i = i + 1;
        }
        proof {
            assert forall|k: int| 0 <= k < self.subsets@.len() implies box_finite(
                (#[trigger] self.subsets@[k]).bounding_box,
            ) by {
                assert(bounds_updated(*join, *enclose, kept[k]@, self.subsets@[k]));
            }
        }
        self.update_bounds_from_subsets(join);
    }
}

} // verus!
