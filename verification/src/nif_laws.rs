//! Laws of the traversal of a scene: which shapes are visible, by which ways down from the root, and
//! in what order.

use crate::byte_text::{ends_uncased, starts_uncased};
use crate::float_bits::{is_number, line_position};
use crate::nif::{
    below_node, below_object, drawable, left_out, lod_child, no_properties, shows_at_distance,
    visible, visible_among, visible_from, with_properties, with_property, ObjectKind, Properties,
    Scene, SceneObject, Seen, Shape,
};
use vstd::prelude::*;

verus! {

/// A way down the scene: the objects from the first root on, and at each but the last the place,
/// among the children, of the child that comes next.
#[verifier::ext_equal]
pub struct Trail {
    pub keys: Seq<usize>,
    pub route: Seq<int>,
}

/// The distances, from which on and up to which a child is shown, hold 8192 game units.
pub open spec fn holds_distance(level: [u32; 2]) -> bool {
    &&& is_number(level@[0])
    &&& is_number(level@[1])
    &&& line_position(level@[0]) <= line_position(0x4600_0000)
    &&& line_position(0x4600_0000) < line_position(level@[1])
}

/// The object shows this child, its `i`th: among levels of detail only the first that holds the
/// distance, of a switch only the active one, of a group every one.
pub open spec fn shows_child(object: SceneObject, i: int, child: usize) -> bool {
    match object.kind {
        ObjectKind::Lod { children, levels } => {
            &&& 0 <= i < children@.len()
            &&& i < levels@.len()
            &&& children@[i] == child
            &&& holds_distance(levels@[i])
            &&& forall|j: int| 0 <= j < i ==> !holds_distance(#[trigger] levels@[j])
        },
        ObjectKind::Switch { children, active } => {
            i == active && active < children@.len() && children@[i] == child
        },
        ObjectKind::Group { children } => 0 <= i < children@.len() && children@[i] == child,
        _ => false,
    }
}

/// The key names an object that may be seen: it is not of a kind that stays hidden, it is not
/// culled, and it is not a marker of the editor in a scene with markers.
pub open spec fn may_be_seen(scene: Scene, key: usize) -> bool {
    &&& key < scene.objects@.len()
    &&& !(scene.objects@[key as int].kind is Hidden)
    &&& scene.objects@[key as int].presence matches Some(presence) ==> !presence.culled && !(
    scene.has_markers && (starts_uncased(presence.name@, "editormarker"@) || starts_uncased(
        presence.name@,
        "tri editormarker"@,
    )))
}

/// From the object the traversal goes on to its `i`th child.
pub open spec fn goes_on(scene: Scene, key: usize, i: int, child: usize) -> bool {
    may_be_seen(scene, key) && shows_child(scene.objects@[key as int], i, child)
}

/// The trail starts at the first root and follows the scene: each object is a child that the object
/// before it shows.
pub open spec fn follows(scene: Scene, trail: Trail) -> bool {
    &&& scene.roots@.len() > 0
    &&& trail.keys.len() == trail.route.len() + 1
    &&& trail.keys[0] == scene.roots@[0]
    &&& forall|i: int|
        0 <= i < trail.route.len() ==> goes_on(
            scene,
            trail.keys[i],
            #[trigger] trail.route[i],
            trail.keys[i + 1],
        )
}

/// The property objects that an object lists.
pub open spec fn own_properties(scene: Scene, key: usize) -> Seq<usize> {
    match scene.objects@[key as int].presence {
        Some(presence) => presence.properties@,
        None => Seq::empty(),
    }
}

/// The property objects that several objects list, one after the other.
pub open spec fn listed_properties(scene: Scene, keys: Seq<usize>) -> Seq<usize>
    decreases keys.len(),
{
    if keys.len() == 0 {
        Seq::empty()
    } else {
        listed_properties(scene, keys.drop_last()) + own_properties(scene, keys.last())
    }
}

/// The key names an object of the kind.
pub open spec fn is_of(scene: Scene, kind: spec_fn(ObjectKind) -> bool, key: usize) -> bool {
    key < scene.objects@.len() && kind(scene.objects@[key as int].kind)
}

/// What is found is the last of its kind in the list; nothing where there is none.
pub open spec fn last_of(
    scene: Scene,
    kind: spec_fn(ObjectKind) -> bool,
    list: Seq<usize>,
    found: Option<usize>,
) -> bool {
    match found {
        Some(key) => exists|i: int|
            {
                &&& 0 <= i < list.len()
                &&& #[trigger] list[i] == key
                &&& is_of(scene, kind, key)
                &&& forall|j: int| i < j < list.len() ==> !is_of(scene, kind, #[trigger] list[j])
            },
        None => forall|j: int| 0 <= j < list.len() ==> !is_of(scene, kind, #[trigger] list[j]),
    }
}

pub open spec fn alpha_kind() -> spec_fn(ObjectKind) -> bool {
    |kind: ObjectKind| kind is Alpha
}

pub open spec fn material_kind() -> spec_fn(ObjectKind) -> bool {
    |kind: ObjectKind| kind is Material
}

pub open spec fn texturing_kind() -> spec_fn(ObjectKind) -> bool {
    |kind: ObjectKind| kind is Texturing
}

/// Of each kind the property object listed last is in force.
pub open spec fn in_force(scene: Scene, list: Seq<usize>, properties: Properties) -> bool {
    &&& last_of(scene, alpha_kind(), list, properties.alpha)
    &&& last_of(scene, material_kind(), list, properties.material)
    &&& last_of(scene, texturing_kind(), list, properties.texturing)
}

/// The shape has all that drawing it takes: no skeleton, some vertices, texture coordinates and
/// triangles, and a base texture with a name that ends like a bitmap.
pub open spec fn has_all_parts(scene: Scene, shape: Shape, properties: Properties) -> bool {
    &&& !shape.skinned
    &&& shape.data matches Some(at) && at < scene.datas@.len()
        && scene.datas@[at as int].positions@.len() > 0 && scene.datas@[at as int].uvs@.len() > 0
        && scene.datas@[at as int].triangles@.len() > 0
    &&& properties.texturing matches Some(key) && key < scene.objects@.len() && has_bitmap(
        scene.objects@[key as int].kind,
    )
}

/// The textures have a base texture with a name that ends like a bitmap.
pub open spec fn has_bitmap(kind: ObjectKind) -> bool {
    kind matches ObjectKind::Texturing { base: Some(path) } && (ends_uncased(path@, ".bmp"@)
        || ends_uncased(path@, ".dds"@) || ends_uncased(path@, ".tga"@))
}

/// The objects that are no roots.
pub open spec fn without_roots(scene: Scene, keys: Seq<usize>) -> Seq<usize> {
    keys.filter(|key: usize| !scene.roots@.contains(key))
}

/// The shape is seen at the end of the trail: its path holds every object on the way down that is
/// no root, in order, and then the shape; in force are the properties listed last on the way.
pub open spec fn seen_along(scene: Scene, trail: Trail, seen: Seen) -> bool {
    &&& follows(scene, trail)
    &&& trail.keys.len() <= scene.objects@.len()
    &&& may_be_seen(scene, seen.shape)
    &&& seen.shape == trail.keys.last()
    &&& seen.path == without_roots(scene, trail.keys.drop_last()).push(seen.shape)
    &&& in_force(scene, listed_properties(scene, trail.keys), seen.properties)
    &&& scene.objects@[seen.shape as int].kind matches ObjectKind::Shape(shape) && has_all_parts(
        scene,
        shape,
        seen.properties,
    )
}

/// The first place at which the routes part has the smaller child in the first.
pub open spec fn turns_earlier(a: Seq<int>, b: Seq<int>) -> bool {
    exists|k: int|
        0 <= k < a.len() && k < b.len() && a.take(k) == b.take(k) && #[trigger] a[k] < b[k]
}

/// The trail goes on from another.
pub open spec fn extends(trail: Trail, start: Trail) -> bool {
    &&& trail.keys.len() >= start.keys.len()
    &&& trail.route.len() >= start.route.len()
    &&& trail.keys.take(start.keys.len() as int) == start.keys
    &&& trail.route.take(start.route.len() as int) == start.route
}

/// The shape is among those listed, with this trail.
pub open spec fn is_listed(trails: Seq<Trail>, seen: Seq<Seen>, trail: Trail, one: Seen) -> bool {
    exists|n: int| 0 <= n < trails.len() && #[trigger] trails[n] == trail && seen[n] == one
}

/// What is seen below a trail: each shape along its own trail, in the order of the children.
pub open spec fn sees(scene: Scene, start: Trail, seen: Seq<Seen>, trails: Seq<Trail>) -> bool {
    &&& trails.len() == seen.len()
    &&& forall|n: int|
        0 <= n < trails.len() ==> seen_along(scene, #[trigger] trails[n], seen[n]) && extends(
            trails[n],
            start,
        )
    &&& forall|m: int, n: int|
        0 <= m < n < trails.len() ==> turns_earlier(
            (#[trigger] trails[m]).route,
            (#[trigger] trails[n]).route,
        )
    &&& forall|trail: Trail, one: Seen| #[trigger]
        seen_along(scene, trail, one) && extends(trail, start) ==> is_listed(
            trails,
            seen,
            trail,
            one,
        )
}

proof fn lemma_seen_object(scene: Scene, key: usize)
    requires
        key < scene.objects@.len(),
    ensures
        left_out(scene, scene.objects@[key as int]) <==> !may_be_seen(scene, key),
{
}

proof fn lemma_has_all_parts(scene: Scene, shape: Shape, properties: Properties)
    ensures
        drawable(scene, shape, properties) <==> has_all_parts(scene, shape, properties),
{
}

/// The child by distance is the first whose levels hold the distance.
proof fn lemma_level(object: SceneObject, children: Seq<usize>, levels: Seq<[u32; 2]>, i: int)
    requires
        object.kind matches ObjectKind::Lod { children: c, levels: l } && c@ == children && l@
            == levels,
        0 <= i,
        forall|j: int|
            0 <= j < i && j < children.len() && j < levels.len() ==> !holds_distance(
                #[trigger] levels[j],
            ),
    ensures
        lod_child(children, levels, i) is Some ==> exists|k: int| #[trigger]
            shows_child(object, k, lod_child(children, levels, i)->0),
        lod_child(children, levels, i) is None ==> forall|k: int, child: usize|
            !#[trigger] shows_child(object, k, child),
    decreases children.len() - i,
{
    if i < children.len() && i < levels.len() {
        assert(shows_at_distance(levels[i]@) <==> holds_distance(levels[i]));
        if shows_at_distance(levels[i]@) {
            assert(lod_child(children, levels, i) == Some(children[i]));
            assert(shows_child(object, i, lod_child(children, levels, i)->0));
        } else {
            lemma_level(object, children, levels, i + 1);
            let found = lod_child(children, levels, i);
            assert(found == lod_child(children, levels, i + 1));
            if found is Some {
                let k = choose|k: int| #[trigger]
                    shows_child(object, k, lod_child(children, levels, i + 1)->0);
                assert(shows_child(object, k, found->0));
            }
        }
    } else {
        assert(lod_child(children, levels, i) is None);
        assert forall|k: int, child: usize| !#[trigger] shows_child(object, k, child) by {
            if shows_child(object, k, child) {
                assert(!holds_distance(levels[k]));
            }
        }
    }
}

/// Of each kind at most one property object is in force.
proof fn lemma_last_of_same(
    scene: Scene,
    kind: spec_fn(ObjectKind) -> bool,
    list: Seq<usize>,
    a: Option<usize>,
    b: Option<usize>,
)
    requires
        last_of(scene, kind, list, a),
        last_of(scene, kind, list, b),
    ensures
        a == b,
{
}

proof fn lemma_last_of_push(
    scene: Scene,
    kind: spec_fn(ObjectKind) -> bool,
    list: Seq<usize>,
    key: usize,
    found: Option<usize>,
)
    requires
        last_of(scene, kind, list, found),
    ensures
        last_of(
            scene,
            kind,
            list.push(key),
            if is_of(scene, kind, key) {
                Some(key)
            } else {
                found
            },
        ),
{
    let longer = list.push(key);
    if is_of(scene, kind, key) {
        assert(longer[list.len() as int] == key);
    } else if let Some(old_key) = found {
        let i = choose|i: int|
            {
                &&& 0 <= i < list.len()
                &&& #[trigger] list[i] == old_key
                &&& is_of(scene, kind, old_key)
                &&& forall|j: int| i < j < list.len() ==> !is_of(scene, kind, #[trigger] list[j])
            };
        assert(longer[i] == old_key);
        assert forall|j: int| i < j < longer.len() implies !is_of(
            scene,
            kind,
            #[trigger] longer[j],
        ) by {
            if j < list.len() {
                assert(longer[j] == list[j]);
            }
        }
    } else {
        assert forall|j: int| 0 <= j < longer.len() implies !is_of(
            scene,
            kind,
            #[trigger] longer[j],
        ) by {
            if j < list.len() {
                assert(longer[j] == list[j]);
            }
        }
    }
}

proof fn lemma_in_force(scene: Scene, list: Seq<usize>)
    ensures
        in_force(scene, list, with_properties(scene.objects@, no_properties(), list)),
    decreases list.len(),
{
    if list.len() > 0 {
        let front = list.drop_last();
        let key = list.last();
        lemma_in_force(scene, front);
        let now = with_properties(scene.objects@, no_properties(), front);
        lemma_last_of_push(scene, alpha_kind(), front, key, now.alpha);
        lemma_last_of_push(scene, material_kind(), front, key, now.material);
        lemma_last_of_push(scene, texturing_kind(), front, key, now.texturing);
        assert(front.push(key) =~= list);
        let next = with_property(scene.objects@, now, key);
        assert(next.alpha == if is_of(scene, alpha_kind(), key) {
            Some(key)
        } else {
            now.alpha
        });
        assert(next.material == if is_of(scene, material_kind(), key) {
            Some(key)
        } else {
            now.material
        });
        assert(next.texturing == if is_of(scene, texturing_kind(), key) {
            Some(key)
        } else {
            now.texturing
        });
    }
}

proof fn lemma_in_force_same(scene: Scene, list: Seq<usize>, a: Properties, b: Properties)
    requires
        in_force(scene, list, a),
        in_force(scene, list, b),
    ensures
        a == b,
{
    lemma_last_of_same(scene, alpha_kind(), list, a.alpha, b.alpha);
    lemma_last_of_same(scene, material_kind(), list, a.material, b.material);
    lemma_last_of_same(scene, texturing_kind(), list, a.texturing, b.texturing);
}

proof fn lemma_with_properties_on(scene: Scene, now: Properties, a: Seq<usize>, b: Seq<usize>)
    ensures
        with_properties(scene.objects@, now, a + b) == with_properties(
            scene.objects@,
            with_properties(scene.objects@, now, a),
            b,
        ),
    decreases b.len(),
{
    if b.len() == 0 {
        assert(a + b =~= a);
    } else {
        lemma_with_properties_on(scene, now, a, b.drop_last());
        assert((a + b).drop_last() =~= a + b.drop_last());
        assert((a + b).last() == b.last());
    }
}

/// The place at which the traversal stands: its trail, and the path and properties that it carries.
spec fn stands_at(scene: Scene, at: Trail, path: Seq<usize>, now: Properties) -> bool {
    &&& follows(scene, at)
    &&& path == without_roots(scene, at.keys.drop_last())
    &&& now == with_properties(
        scene.objects@,
        no_properties(),
        listed_properties(scene, at.keys.drop_last()),
    )
}

/// The trail goes on to a child.
spec fn down(at: Trail, i: int, child: usize) -> Trail {
    Trail { keys: at.keys.push(child), route: at.route.push(i) }
}

proof fn lemma_properties_below(scene: Scene, at: Trail, path: Seq<usize>, now: Properties)
    requires
        stands_at(scene, at, path, now),
        at.keys.last() < scene.objects@.len(),
    ensures
        below_object(scene, scene.objects@[at.keys.last() as int], now) == with_properties(
            scene.objects@,
            no_properties(),
            listed_properties(scene, at.keys),
        ),
        below_node(scene, path, at.keys.last()) == without_roots(scene, at.keys),
{
    let key = at.keys.last();
    let before = listed_properties(scene, at.keys.drop_last());
    lemma_with_properties_on(scene, no_properties(), before, own_properties(scene, key));
    reveal(Seq::filter);
}

proof fn lemma_stands_below(
    scene: Scene,
    at: Trail,
    path: Seq<usize>,
    now: Properties,
    i: int,
    child: usize,
)
    requires
        stands_at(scene, at, path, now),
        goes_on(scene, at.keys.last(), i, child),
    ensures
        stands_at(
            scene,
            down(at, i, child),
            below_node(scene, path, at.keys.last()),
            below_object(scene, scene.objects@[at.keys.last() as int], now),
        ),
{
    let next = down(at, i, child);
    lemma_properties_below(scene, at, path, now);
    assert(next.keys.drop_last() =~= at.keys);
    assert forall|k: int| 0 <= k < next.route.len() implies goes_on(
        scene,
        next.keys[k],
        #[trigger] next.route[k],
        next.keys[k + 1],
    ) by {
        if k < at.route.len() {
            assert(next.route[k] == at.route[k]);
        }
    }
}

/// A trail to a shape that goes on from an object that is no shape goes on to a child of it.
proof fn lemma_goes_down(scene: Scene, at: Trail, trail: Trail, one: Seen)
    requires
        follows(scene, at),
        seen_along(scene, trail, one),
        extends(trail, at),
        at.keys.last() < scene.objects@.len(),
        !(scene.objects@[at.keys.last() as int].kind is Shape),
    ensures
        trail.route.len() > at.route.len(),
        goes_on(
            scene,
            at.keys.last(),
            trail.route[at.route.len() as int],
            trail.keys[at.keys.len() as int],
        ),
        extends(
            trail,
            down(at, trail.route[at.route.len() as int], trail.keys[at.keys.len() as int]),
        ),
{
    let n = at.route.len() as int;
    if trail.route.len() == at.route.len() {
        assert(trail.keys =~= at.keys);
    }
    let i = trail.route[n];
    let child = trail.keys[n + 1];
    assert(trail.keys[n] == trail.keys.take(n + 1)[n]);
    assert(trail.keys[n] == at.keys.last());
    let next = down(at, i, child);
    assert(trail.keys.take(n + 2) =~= next.keys) by {
        assert forall|k: int| 0 <= k < n + 1 implies trail.keys[k] == at.keys[k] by {
            assert(trail.keys.take(n + 1)[k] == trail.keys[k]);
        }
    }
    assert(trail.route.take(n + 1) =~= next.route) by {
        assert forall|k: int| 0 <= k < n implies trail.route[k] == at.route[k] by {
            assert(trail.route.take(n)[k] == trail.route[k]);
        }
    }
}

proof fn lemma_extends_less(trail: Trail, at: Trail, i: int, child: usize)
    requires
        extends(trail, down(at, i, child)),
    ensures
        extends(trail, at),
        trail.route.len() > at.route.len(),
        trail.route[at.route.len() as int] == i,
        trail.keys.len() > at.keys.len(),
        trail.keys[at.keys.len() as int] == child,
{
    let next = down(at, i, child);
    let n = at.route.len() as int;
    let k = at.keys.len() as int;
    assert(trail.route.take(n + 1)[n] == next.route[n]);
    assert(trail.keys.take(k + 1)[k] == next.keys[k]);
    assert(trail.route.take(n) =~= next.route.take(n));
    assert(next.route.take(n) =~= at.route);
    assert(trail.keys.take(k) =~= next.keys.take(k));
    assert(next.keys.take(k) =~= at.keys);
}

/// What is seen below an object that shows one child is what is seen below that child.
proof fn lemma_sees_one_child(
    scene: Scene,
    at: Trail,
    i: int,
    child: usize,
    seen: Seq<Seen>,
    trails: Seq<Trail>,
)
    requires
        follows(scene, at),
        goes_on(scene, at.keys.last(), i, child),
        forall|j: int, other: usize| #[trigger]
            goes_on(scene, at.keys.last(), j, other) ==> j == i && other == child,
        sees(scene, down(at, i, child), seen, trails),
    ensures
        sees(scene, at, seen, trails),
{
    let next = down(at, i, child);
    assert forall|n: int| 0 <= n < trails.len() implies seen_along(
        scene,
        #[trigger] trails[n],
        seen[n],
    ) && extends(trails[n], at) by {
        lemma_extends_less(trails[n], at, i, child);
    }
    assert forall|trail: Trail, one: Seen| #[trigger]
        seen_along(scene, trail, one) && extends(trail, at) implies is_listed(
        trails,
        seen,
        trail,
        one,
    ) by {
        lemma_goes_down(scene, at, trail, one);
        assert(extends(trail, next));
    }
}

/// Nothing is seen below an object that shows no child and is no shape.
proof fn lemma_sees_nothing(scene: Scene, at: Trail)
    requires
        follows(scene, at),
        at.keys.last() < scene.objects@.len() && may_be_seen(scene, at.keys.last()) ==> {
            &&& !(scene.objects@[at.keys.last() as int].kind is Shape)
            &&& forall|j: int, other: usize| !#[trigger] goes_on(scene, at.keys.last(), j, other)
        },
    ensures
        sees(scene, at, Seq::empty(), Seq::empty()),
{
    assert forall|trail: Trail, one: Seen| #[trigger]
        seen_along(scene, trail, one) && extends(trail, at) implies false by {
        let n = at.route.len() as int;
        assert(trail.keys[n] == trail.keys.take(n + 1)[n]);
        assert(trail.keys[n] == at.keys.last());
        if trail.route.len() == n {
            assert(trail.keys =~= at.keys);
        } else {
            assert(goes_on(scene, trail.keys[n], trail.route[n], trail.keys[n + 1]));
        }
    }
}

/// A shape that can be drawn is all that is seen at it.
proof fn lemma_sees_shape(scene: Scene, at: Trail, path: Seq<usize>, now: Properties)
    requires
        stands_at(scene, at, path, now),
        at.keys.len() <= scene.objects@.len(),
        may_be_seen(scene, at.keys.last()),
        scene.objects@[at.keys.last() as int].kind is Shape,
    ensures
        ({
            let key = at.keys.last();
            let object = scene.objects@[key as int];
            let properties = below_object(scene, object, now);
            if drawable(scene, object.kind->Shape_0, properties) {
                sees(
                    scene,
                    at,
                    seq![Seen { shape: key, path: path.push(key), properties }],
                    seq![at],
                )
            } else {
                sees(scene, at, Seq::empty(), Seq::empty())
            }
        }),
{
    let key = at.keys.last();
    let object = scene.objects@[key as int];
    let properties = below_object(scene, object, now);
    let seen = Seen { shape: key, path: path.push(key), properties };
    let list = listed_properties(scene, at.keys);
    lemma_properties_below(scene, at, path, now);
    lemma_in_force(scene, list);
    lemma_has_all_parts(scene, object.kind->Shape_0, properties);
    assert forall|trail: Trail, one: Seen| #[trigger]
        seen_along(scene, trail, one) && extends(trail, at) implies trail == at && one == seen by {
        let n = at.route.len() as int;
        assert(trail.keys[n] == trail.keys.take(n + 1)[n]);
        assert(trail.keys[n] == key);
        if trail.route.len() > n {
            assert(goes_on(scene, trail.keys[n], trail.route[n], trail.keys[n + 1]));
        }
        assert(trail.keys =~= at.keys);
        assert(trail.route =~= at.route);
        lemma_in_force_same(scene, list, properties, one.properties);
        assert(one.path =~= seen.path);
    }
    if drawable(scene, object.kind->Shape_0, properties) {
        let trails = seq![at];
        let all = seq![seen];
        assert(extends(at, at)) by {
            assert(at.keys.take(at.keys.len() as int) =~= at.keys);
            assert(at.route.take(at.route.len() as int) =~= at.route);
        }
        assert(seen_along(scene, at, seen));
        assert forall|trail: Trail, one: Seen| #[trigger]
            seen_along(scene, trail, one) && extends(trail, at) implies is_listed(
            trails,
            all,
            trail,
            one,
        ) by {
            assert(trails[0] == trail && all[0] == one);
        }
    } else {
        assert forall|trail: Trail, one: Seen| #[trigger]
            seen_along(scene, trail, one) && extends(trail, at) implies false by {
            assert(one == seen);
        }
    }
}

proof fn lemma_trails_from(
    scene: Scene,
    depth: nat,
    at: Trail,
    path: Seq<usize>,
    now: Properties,
) -> (trails: Seq<Trail>)
    requires
        stands_at(scene, at, path, now),
        at.keys.len() + depth == scene.objects@.len() + 1,
    ensures
        sees(scene, at, visible_from(scene, depth, at.keys.last(), path, now), trails),
    decreases depth, 0nat,
{
    let key = at.keys.last();
    let all = visible_from(scene, depth, key, path, now);
    if depth == 0 {
        assert forall|trail: Trail, one: Seen| #[trigger]
            seen_along(scene, trail, one) && extends(trail, at) implies false by {}
        Seq::empty()
    } else if key >= scene.objects@.len() || left_out(scene, scene.objects@[key as int]) {
        lemma_sees_nothing(scene, at);
        Seq::empty()
    } else {
        lemma_seen_object(scene, key);
        let object = scene.objects@[key as int];
        let properties = below_object(scene, object, now);
        let inner = below_node(scene, path, key);
        let less = (depth - 1) as nat;
        match object.kind {
            ObjectKind::Lod { children, levels } => {
                lemma_level(object, children@, levels@, 0);
                match lod_child(children@, levels@, 0) {
                    Some(child) => {
                        let i = choose|i: int| #[trigger] shows_child(object, i, child);
                        lemma_stands_below(scene, at, path, now, i, child);
                        assert(down(at, i, child).keys.last() == child);
                        let trails = lemma_trails_from(
                            scene,
                            less,
                            down(at, i, child),
                            inner,
                            properties,
                        );
                        assert forall|j: int, other: usize| #[trigger]
                            goes_on(scene, key, j, other) implies j == i && other == child by {
                            if j < i {
                                assert(!holds_distance(levels@[j]));
                            }
                            if i < j {
                                assert(!holds_distance(levels@[i]));
                            }
                        }
                        lemma_sees_one_child(scene, at, i, child, all, trails);
                        trails
                    },
                    None => {
                        lemma_sees_nothing(scene, at);
                        Seq::empty()
                    },
                }
            },
            ObjectKind::Switch { children, active } => {
                if active < children@.len() {
                    let child = children@[active as int];
                    let i = active as int;
                    lemma_stands_below(scene, at, path, now, i, child);
                    assert(down(at, i, child).keys.last() == child);
                    let trails = lemma_trails_from(
                        scene,
                        less,
                        down(at, i, child),
                        inner,
                        properties,
                    );
                    lemma_sees_one_child(scene, at, i, child, all, trails);
                    trails
                } else {
                    lemma_sees_nothing(scene, at);
                    Seq::empty()
                }
            },
            ObjectKind::Group { children } => {
                assert(children@.take(children@.len() as int) =~= children@);
                let trails = lemma_trails_among(
                    scene,
                    less,
                    at,
                    path,
                    now,
                    children@,
                    children@.len() as int,
                );
                assert forall|trail: Trail, one: Seen| #[trigger]
                    seen_along(scene, trail, one) && extends(trail, at) implies is_listed(
                    trails,
                    all,
                    trail,
                    one,
                ) by {
                    lemma_goes_down(scene, at, trail, one);
                }
                trails
            },
            ObjectKind::Shape(shape) => {
                lemma_sees_shape(scene, at, path, now);
                if drawable(scene, shape, properties) {
                    seq![at]
                } else {
                    Seq::empty()
                }
            },
            _ => {
                lemma_sees_nothing(scene, at);
                Seq::empty()
            },
        }
    }
}

/// What is seen below the first children of a group.
spec fn sees_first(
    scene: Scene,
    at: Trail,
    count: int,
    seen: Seq<Seen>,
    trails: Seq<Trail>,
) -> bool {
    let n = at.route.len() as int;
    &&& trails.len() == seen.len()
    &&& forall|m: int|
        0 <= m < trails.len() ==> {
            &&& seen_along(scene, #[trigger] trails[m], seen[m])
            &&& extends(trails[m], at)
            &&& trails[m].route.len() > n
            &&& trails[m].route[n] < count
        }
    &&& forall|m: int, k: int|
        0 <= m < k < trails.len() ==> turns_earlier(
            (#[trigger] trails[m]).route,
            (#[trigger] trails[k]).route,
        )
    &&& forall|trail: Trail, one: Seen| #[trigger]
        seen_along(scene, trail, one) && extends(trail, at) && trail.route.len() > n
            && trail.route[n] < count ==> is_listed(trails, seen, trail, one)
}

proof fn lemma_trails_among(
    scene: Scene,
    depth: nat,
    at: Trail,
    path: Seq<usize>,
    now: Properties,
    children: Seq<usize>,
    count: int,
) -> (trails: Seq<Trail>)
    requires
        stands_at(scene, at, path, now),
        at.keys.len() + depth == scene.objects@.len(),
        may_be_seen(scene, at.keys.last()),
        scene.objects@[at.keys.last() as int].kind matches ObjectKind::Group { children: c } && c@
            == children,
        0 <= count <= children.len(),
    ensures
        sees_first(
            scene,
            at,
            count,
            visible_among(
                scene,
                depth,
                children.take(count),
                below_node(scene, path, at.keys.last()),
                below_object(scene, scene.objects@[at.keys.last() as int], now),
            ),
            trails,
        ),
    decreases depth, count + 1,
{
    let key = at.keys.last();
    let inner = below_node(scene, path, key);
    let properties = below_object(scene, scene.objects@[key as int], now);
    let n = at.route.len() as int;
    if count == 0 {
        assert forall|trail: Trail, one: Seen| #[trigger]
            seen_along(scene, trail, one) && extends(trail, at) && trail.route.len() > n
                && trail.route[n] < count implies false by {
            lemma_goes_down(scene, at, trail, one);
        }
        Seq::empty()
    } else {
        let i = count - 1;
        let child = children[i];
        let next = down(at, i, child);
        let some = children.take(count);
        assert(some.drop_last() =~= children.take(i));
        assert(some.last() == child);
        let front = lemma_trails_among(scene, depth, at, path, now, children, i);
        lemma_stands_below(scene, at, path, now, i, child);
        assert(next.keys.last() == child);
        let last = lemma_trails_from(scene, depth, next, inner, properties);
        let seen_front = visible_among(scene, depth, children.take(i), inner, properties);
        let seen_last = visible_from(scene, depth, child, inner, properties);
        lemma_sees_more(scene, at, i, child, seen_front, front, seen_last, last);
        front + last
    }
}

proof fn lemma_sees_more(
    scene: Scene,
    at: Trail,
    i: int,
    child: usize,
    seen_front: Seq<Seen>,
    front: Seq<Trail>,
    seen_last: Seq<Seen>,
    last: Seq<Trail>,
)
    requires
        follows(scene, at),
        may_be_seen(scene, at.keys.last()),
        scene.objects@[at.keys.last() as int].kind is Group,
        goes_on(scene, at.keys.last(), i, child),
        sees_first(scene, at, i, seen_front, front),
        sees(scene, down(at, i, child), seen_last, last),
    ensures
        sees_first(scene, at, i + 1, seen_front + seen_last, front + last),
{
    let n = at.route.len() as int;
    let next = down(at, i, child);
    let trails = front + last;
    let seen = seen_front + seen_last;
    let c = front.len();
    assert forall|m: int| 0 <= m < trails.len() implies {
        &&& seen_along(scene, #[trigger] trails[m], seen[m])
        &&& extends(trails[m], at)
        &&& trails[m].route.len() > n
        &&& trails[m].route[n] < i + 1
    } by {
        if m < c {
            assert(trails[m] == front[m] && seen[m] == seen_front[m]);
        } else {
            assert(trails[m] == last[m - c] && seen[m] == seen_last[m - c]);
            lemma_extends_less(last[m - c], at, i, child);
        }
    }
    assert forall|m: int, k: int| 0 <= m < k < trails.len() implies turns_earlier(
        (#[trigger] trails[m]).route,
        (#[trigger] trails[k]).route,
    ) by {
        if k < c {
            assert(trails[m] == front[m] && trails[k] == front[k]);
        } else if m >= c {
            assert(trails[m] == last[m - c] && trails[k] == last[k - c]);
        } else {
            let a = front[m].route;
            let b = last[k - c].route;
            assert(trails[m] == front[m] && trails[k] == last[k - c]);
            lemma_extends_less(last[k - c], at, i, child);
            assert(a.take(n) == b.take(n) && a[n] < b[n]);
        }
    }
    assert forall|trail: Trail, one: Seen| #[trigger]
        seen_along(scene, trail, one) && extends(trail, at) && trail.route.len() > n
            && trail.route[n] < i + 1 implies is_listed(trails, seen, trail, one) by {
        lemma_goes_down(scene, at, trail, one);
        if trail.route[n] < i {
            assert(is_listed(front, seen_front, trail, one));
            let m = choose|m: int|
                0 <= m < front.len() && #[trigger] front[m] == trail && seen_front[m] == one;
            assert(trails[m] == trail && seen[m] == one);
        } else {
            assert(trail.keys[n + 1] == child);
            assert(extends(trail, next));
            assert(is_listed(last, seen_last, trail, one));
            let m = choose|m: int|
                0 <= m < last.len() && #[trigger] last[m] == trail && seen_last[m] == one;
            assert(trails[m + c] == trail && seen[m + c] == one);
        }
    }
}

/// Each visible shape is seen along a way down from the first root that follows the scene, with
/// every object on the way that is no root on its path and the properties listed last in force;
/// every shape so seen is visible; and they come in the order of the children.
pub proof fn lemma_visible_shapes(scene: Scene) -> (trails: Seq<Trail>)
    ensures
        trails.len() == visible(scene).len(),
        forall|n: int|
            0 <= n < trails.len() ==> seen_along(
                scene,
                #[trigger] trails[n],
                visible(scene)[n],
            ),
        forall|m: int, n: int|
            0 <= m < n < trails.len() ==> turns_earlier(
                (#[trigger] trails[m]).route,
                (#[trigger] trails[n]).route,
            ),
        forall|trail: Trail, one: Seen| #[trigger]
            seen_along(scene, trail, one) ==> is_listed(trails, visible(scene), trail, one),
{
    if scene.roots@.len() == 0 {
        Seq::empty()
    } else if scene.objects@.len() == 0 {
        Seq::empty()
    } else {
        let root = scene.roots@[0];
        let start = Trail { keys: seq![root], route: Seq::empty() };
        assert(start.keys.drop_last() =~= Seq::empty());
        reveal(Seq::filter);
        assert(stands_at(scene, start, Seq::empty(), no_properties()));
        let trails = lemma_trails_from(
            scene,
            scene.objects@.len(),
            start,
            Seq::empty(),
            no_properties(),
        );
        assert forall|trail: Trail, one: Seen| #[trigger]
            seen_along(scene, trail, one) implies is_listed(
            trails,
            visible(scene),
            trail,
            one,
        ) by {
            assert(trail.keys.take(1) =~= start.keys);
            assert(trail.route.take(0) =~= start.route);
            assert(extends(trail, start));
        }
        trails
    }
}

/// The path of a visible shape holds every object on the way down to it that is no root, and
/// nothing but such objects and the shape itself.
pub proof fn lemma_path_holds_ancestors(scene: Scene, trail: Trail, seen: Seen)
    requires
        seen_along(scene, trail, seen),
    ensures
        forall|i: int|
            0 <= i < trail.route.len() && !scene.roots@.contains(#[trigger] trail.keys[i])
                ==> seen.path.contains(trail.keys[i]),
        forall|k: int|
            0 <= k < seen.path.len() - 1 ==> !scene.roots@.contains(#[trigger] seen.path[k])
                && trail.keys.drop_last().contains(seen.path[k]),
        seen.path.last() == seen.shape,
{
    let keys = trail.keys.drop_last();
    let kept = without_roots(scene, keys);
    broadcast use {
        Seq::lemma_filter_len,
        Seq::lemma_filter_pred,
        Seq::lemma_filter_contains,
        Seq::lemma_filter_contains_rev,
    };

    assert forall|i: int|
        0 <= i < trail.route.len() && !scene.roots@.contains(
            #[trigger] trail.keys[i],
        ) implies seen.path.contains(trail.keys[i]) by {
        assert(keys[i] == trail.keys[i]);
        assert(kept.contains(keys[i]));
        let k = choose|k: int| 0 <= k < kept.len() && kept[k] == keys[i];
        assert(seen.path[k] == keys[i]);
    }
    assert forall|k: int| 0 <= k < seen.path.len() - 1 implies !scene.roots@.contains(
        #[trigger] seen.path[k],
    ) && keys.contains(seen.path[k]) by {
        assert(seen.path[k] == kept[k]);
        assert(kept.contains(kept[k]));
    }
}

} // verus!
