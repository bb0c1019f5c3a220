//! Traversal of a mesh scene.
//!
//! All lanes of vectors are IEEE single-precision bit patterns.

use crate::byte_text::{
    ends_uncased, ends_with_uncased, lower_text, starts_uncased, starts_with_uncased, uncased_equal,
};
use crate::float_bits::{below, number_eq, number_lt, same_number};
use crate::list::copied;
use vstd::prelude::*;

verus! {

/// Distance, in game units, at which level-of-detail children are chosen: 8192.
pub const LOD_DIST: u32 = 0x4600_0000;

/// A triangle shape.
pub struct Shape {
    /// The shape deforms with a skeleton.
    pub skinned: bool,
    /// Position of the geometry data in the scene.
    pub data: Option<usize>,
    /// The shape carries a controller of texture coordinates.
    pub has_uv_controller: bool,
    /// Strings attached to the shape.
    pub strings: Vec<String>,
}

/// Geometry data of a shape, in its own space.
pub struct ShapeData {
    pub positions: Vec<[u32; 3]>,
    pub normals: Vec<[u32; 3]>,
    /// Texture coordinates of all sets, one after the other.
    pub uvs: Vec<[u32; 2]>,
    pub colors: Vec<[u32; 4]>,
    pub triangles: Vec<[u16; 3]>,
}

/// Material of a shape.
#[derive(Clone, Copy, Debug)]
pub struct Material {
    pub diffuse: [u32; 3],
    pub alpha: u32,
    /// Average of the emissive color.
    pub emissive: u32,
}

/// What an object of a scene is.
pub enum ObjectKind {
    /// A dynamic effect, a billboard, particles or collision geometry.
    Hidden,
    /// Children by distance, each with the distances between which it is shown.
    Lod { children: Vec<usize>, levels: Vec<[u32; 2]> },
    /// Children of which one is active.
    Switch { children: Vec<usize>, active: usize },
    /// Children that are all shown.
    Group { children: Vec<usize> },
    Shape(Shape),
    Alpha { blends: bool, tests: bool },
    Material(Material),
    /// Textures, with the path of the base texture where that is an external file.
    Texturing { base: Option<String> },
    Other,
}

/// What objects that have a place in the scene carry.
pub struct Presence {
    pub culled: bool,
    pub name: String,
    /// Positions of property objects in the scene.
    pub properties: Vec<usize>,
}

/// An object of a scene.
pub struct SceneObject {
    pub kind: ObjectKind,
    pub presence: Option<Presence>,
}

/// A scene. Objects refer to each other by position; a position past the end refers to nothing.
pub struct Scene {
    pub objects: Vec<SceneObject>,
    pub datas: Vec<ShapeData>,
    pub roots: Vec<usize>,
    /// The first root carries a string that starts with `mrk`.
    pub has_markers: bool,
}

/// Property objects in force at a place of the scene.
#[derive(Clone, Copy, Debug, PartialEq, Eq, Structural)]
pub struct Properties {
    pub alpha: Option<usize>,
    pub material: Option<usize>,
    pub texturing: Option<usize>,
}

/// No property objects.
pub open spec fn no_properties() -> Properties {
    Properties { alpha: None, material: None, texturing: None }
}

/// A visible shape.
#[derive(Debug)]
pub struct Geometry {
    /// Position of the shape in the scene.
    pub shape: usize,
    /// The objects whose transforms place the shape, from the outermost to the shape itself.
    pub path: Vec<usize>,
    pub properties: Properties,
}

/// A visible shape, as mathematical values.
#[verifier::ext_equal]
pub struct Seen {
    pub shape: usize,
    pub path: Seq<usize>,
    pub properties: Properties,
}

impl View for Geometry {
    type V = Seen;

    open spec fn view(&self) -> Seen {
        Seen { shape: self.shape, path: self.path@, properties: self.properties }
    }
}

/// Visible shapes, as mathematical values.
pub open spec fn all_seen(list: Seq<Geometry>) -> Seq<Seen> {
    list.map_values(|g: Geometry| g@)
}

/// The name is that of a marker of the editor.
pub open spec fn marker_name(name: Seq<char>) -> bool {
    starts_uncased(name, "editormarker"@) || starts_uncased(name, "tri editormarker"@)
}

/// Whether the name is that of a marker of the editor.
pub fn is_editor_marker(name: &str) -> (r: bool)
    ensures
        r == marker_name(name@),
{
    starts_with_uncased(name, "editormarker") || starts_with_uncased(name, "tri editormarker")
}

/// The path ends like a texture that can be read.
pub open spec fn texture_format(path: Seq<char>) -> bool {
    ends_uncased(path, ".bmp"@) || ends_uncased(path, ".dds"@) || ends_uncased(path, ".tga"@)
}

/// Whether the path ends like a texture that can be read.
pub fn is_valid_texture_format(path: &str) -> (r: bool)
    ensures
        r == texture_format(path@),
{
    ends_with_uncased(path, ".bmp") || ends_with_uncased(path, ".dds") || ends_with_uncased(
        path,
        ".tga",
    )
}

/// A child with these levels is shown at the chosen distance.
pub open spec fn shows_at_distance(levels: Seq<u32>) -> bool {
    (below(levels[0], LOD_DIST) || same_number(levels[0], LOD_DIST)) && below(LOD_DIST, levels[1])
}

/// The first child that is shown at the chosen distance, counted from `i`.
pub open spec fn lod_child(children: Seq<usize>, levels: Seq<[u32; 2]>, i: int) -> Option<usize>
    decreases children.len() - i,
{
    if i < 0 || i >= children.len() || i >= levels.len() {
        None
    } else if shows_at_distance(levels[i]@) {
        Some(children[i])
    } else {
        lod_child(children, levels, i + 1)
    }
}

/// The properties after one more property object.
pub open spec fn with_property(objects: Seq<SceneObject>, now: Properties, key: usize) -> Properties {
    if key >= objects.len() {
        now
    } else {
        match objects[key as int].kind {
            ObjectKind::Alpha { .. } => Properties { alpha: Some(key), ..now },
            ObjectKind::Material(_) => Properties { material: Some(key), ..now },
            ObjectKind::Texturing { .. } => Properties { texturing: Some(key), ..now },
            _ => now,
        }
    }
}

/// The properties after several property objects: of each kind the last is in force.
pub open spec fn with_properties(
    objects: Seq<SceneObject>,
    now: Properties,
    keys: Seq<usize>,
) -> Properties
    decreases keys.len(),
{
    if keys.len() == 0 {
        now
    } else {
        with_property(objects, with_properties(objects, now, keys.drop_last()), keys.last())
    }
}

/// The path of the base texture that the properties name.
pub open spec fn base_texture(objects: Seq<SceneObject>, properties: Properties) -> Option<
    Seq<char>,
> {
    match properties.texturing {
        Some(key) if key < objects.len() => match objects[key as int].kind {
            ObjectKind::Texturing { base: Some(path) } => Some(path@),
            _ => None,
        },
        _ => None,
    }
}

/// The properties blend or test alpha.
pub open spec fn uses_alpha(objects: Seq<SceneObject>, properties: Properties) -> bool {
    match properties.alpha {
        Some(key) if key < objects.len() => match objects[key as int].kind {
            ObjectKind::Alpha { blends, tests } => blends || tests,
            _ => false,
        },
        _ => false,
    }
}

/// The material that the properties name.
pub open spec fn material_of(objects: Seq<SceneObject>, properties: Properties) -> Option<Material> {
    match properties.material {
        Some(key) if key < objects.len() => match objects[key as int].kind {
            ObjectKind::Material(material) => Some(material),
            _ => None,
        },
        _ => None,
    }
}

/// The shape can be drawn: it is not skinned, has vertices, texture coordinates and triangles, and
/// its base texture can be read.
pub open spec fn drawable(scene: Scene, shape: Shape, properties: Properties) -> bool {
    &&& !shape.skinned
    &&& shape.data matches Some(at) && at < scene.datas@.len() && {
        let data = scene.datas@[at as int];
        data.positions@.len() > 0 && data.uvs@.len() > 0 && data.triangles@.len() > 0
    }
    &&& base_texture(scene.objects@, properties) matches Some(path) && texture_format(path)
}

/// The object and what is below it are left out.
pub open spec fn left_out(scene: Scene, object: SceneObject) -> bool {
    ||| object.kind is Hidden
    ||| object.presence matches Some(presence) && (presence.culled || (scene.has_markers
        && marker_name(presence.name@)))
}

/// The properties in force below an object.
pub open spec fn below_object(scene: Scene, object: SceneObject, now: Properties) -> Properties {
    match object.presence {
        Some(presence) => with_properties(scene.objects@, now, presence.properties@),
        None => now,
    }
}

/// The path below a node. The transforms of roots do not count.
pub open spec fn below_node(scene: Scene, path: Seq<usize>, key: usize) -> Seq<usize> {
    if scene.roots@.contains(key) {
        path
    } else {
        path.push(key)
    }
}

/// What is visible from an object down, `depth` objects deep at most, in scene order.
pub open spec fn visible_from(
    scene: Scene,
    depth: nat,
    key: usize,
    path: Seq<usize>,
    now: Properties,
) -> Seq<Seen>
    decreases depth, 0nat,
{
    if depth == 0 || key >= scene.objects@.len() || left_out(scene, scene.objects@[key as int]) {
        Seq::empty()
    } else {
        let object = scene.objects@[key as int];
        let properties = below_object(scene, object, now);
        let inner = below_node(scene, path, key);
        match object.kind {
            ObjectKind::Lod { children, levels } => match lod_child(children@, levels@, 0) {
                Some(child) => visible_from(scene, (depth - 1) as nat, child, inner, properties),
                None => Seq::empty(),
            },
            ObjectKind::Switch { children, active } => if active < children@.len() {
                visible_from(
                    scene,
                    (depth - 1) as nat,
                    children@[active as int],
                    inner,
                    properties,
                )
            } else {
                Seq::empty()
            },
            ObjectKind::Group { children } => visible_among(
                scene,
                (depth - 1) as nat,
                children@,
                inner,
                properties,
            ),
            ObjectKind::Shape(shape) => if drawable(scene, shape, properties) {
                seq![Seen { shape: key, path: path.push(key), properties }]
            } else {
                Seq::empty()
            },
            _ => Seq::empty(),
        }
    }
}

/// What is visible from several objects down, one after the other.
pub open spec fn visible_among(
    scene: Scene,
    depth: nat,
    keys: Seq<usize>,
    path: Seq<usize>,
    now: Properties,
) -> Seq<Seen>
    decreases depth, keys.len() + 1,
{
    if keys.len() == 0 {
        Seq::empty()
    } else {
        visible_among(scene, depth, keys.drop_last(), path, now) + visible_from(
            scene,
            depth,
            keys.last(),
            path,
            now,
        )
    }
}

/// What is visible in a scene: from its first root, as deep as there are objects.
pub open spec fn visible(scene: Scene) -> Seq<Seen> {
    if scene.roots@.len() == 0 {
        Seq::empty()
    } else {
        visible_from(
            scene,
            scene.objects@.len(),
            scene.roots@[0],
            Seq::empty(),
            no_properties(),
        )
    }
}

/// The objects that the traversal goes on to from an object.
pub open spec fn children_of(kind: ObjectKind) -> Seq<usize> {
    match kind {
        ObjectKind::Lod { children, .. } => children@,
        ObjectKind::Switch { children, .. } => children@,
        ObjectKind::Group { children } => children@,
        _ => Seq::empty(),
    }
}

/// The ranks fall from each object to those below it.
pub open spec fn ranked(scene: Scene, ranks: Seq<nat>) -> bool {
    &&& ranks.len() == scene.objects@.len()
    &&& forall|k: int, i: int|
        0 <= k < scene.objects@.len() && 0 <= i < children_of(scene.objects@[k].kind).len()
            && #[trigger] children_of(scene.objects@[k].kind)[i] < scene.objects@.len()
            ==> ranks[children_of(scene.objects@[k].kind)[i] as int] < ranks[k]
}

proof fn lemma_lod_child(children: Seq<usize>, levels: Seq<[u32; 2]>, i: int)
    ensures
        lod_child(children, levels, i) matches Some(child) ==> exists|k: int|
            0 <= k < children.len() && children[k] == child,
    decreases children.len() - i,
{
    if 0 <= i < children.len() && i < levels.len() {
        if shows_at_distance(levels[i]@) {
            assert(children[i] == children[i]);
        } else {
            lemma_lod_child(children, levels, i + 1);
        }
    }
}

/// Objects below rank `depth` look alike at that depth and one more.
proof fn lemma_deep_enough(
    scene: Scene,
    ranks: Seq<nat>,
    depth: nat,
    key: usize,
    path: Seq<usize>,
    now: Properties,
)
    requires
        ranked(scene, ranks),
        key < ranks.len() ==> ranks[key as int] < depth,
    ensures
        visible_from(scene, depth, key, path, now) == visible_from(
            scene,
            depth + 1,
            key,
            path,
            now,
        ),
    decreases depth, 0nat,
{
    if key < scene.objects@.len() && depth > 0 && !left_out(scene, scene.objects@[key as int]) {
        let object = scene.objects@[key as int];
        let properties = below_object(scene, object, now);
        let inner = below_node(scene, path, key);
        let children = children_of(object.kind);
        match object.kind {
            ObjectKind::Lod { children: listed, levels } => {
                lemma_lod_child(listed@, levels@, 0);
                if let Some(child) = lod_child(listed@, levels@, 0) {
                    let k = choose|k: int| 0 <= k < listed@.len() && listed@[k] == child;
                    assert(children[k] == child);
                    lemma_deep_enough(scene, ranks, (depth - 1) as nat, child, inner, properties);
                }
            },
            ObjectKind::Switch { children: listed, active } => {
                if active < listed@.len() {
                    assert(children[active as int] == listed@[active as int]);
                    lemma_deep_enough(
                        scene,
                        ranks,
                        (depth - 1) as nat,
                        listed@[active as int],
                        inner,
                        properties,
                    );
                }
            },
            ObjectKind::Group { children: listed } => {
                assert forall|i: int|
                    0 <= i < listed@.len() && #[trigger] listed@[i] < ranks.len() implies ranks[listed@[i] as int]
                    < depth - 1 by {
                    assert(children[i] == listed@[i]);
                }
                lemma_all_deep_enough(
                    scene,
                    ranks,
                    (depth - 1) as nat,
                    listed@,
                    inner,
                    properties,
                );
            },
            _ => {},
        }
    }
}

proof fn lemma_all_deep_enough(
    scene: Scene,
    ranks: Seq<nat>,
    depth: nat,
    keys: Seq<usize>,
    path: Seq<usize>,
    now: Properties,
)
    requires
        ranked(scene, ranks),
        forall|i: int|
            0 <= i < keys.len() && #[trigger] keys[i] < ranks.len() ==> ranks[keys[i] as int] < depth,
    ensures
        visible_among(scene, depth, keys, path, now) == visible_among(
            scene,
            depth + 1,
            keys,
            path,
            now,
        ),
    decreases depth, keys.len() + 1,
{
    if keys.len() > 0 {
        let front = keys.drop_last();
        assert forall|i: int|
            0 <= i < front.len() && #[trigger] front[i] < ranks.len() implies ranks[front[i] as int]
            < depth by {
            assert(front[i] == keys[i]);
        }
        lemma_all_deep_enough(scene, ranks, depth, front, path, now);
        assert(keys[keys.len() - 1] == keys.last());
        lemma_deep_enough(scene, ranks, depth, keys.last(), path, now);
    }
}

/// In a scene without cycles the depth of the traversal hides nothing: going deeper shows the same.
pub proof fn lemma_nothing_too_deep(scene: Scene, ranks: Seq<nat>, extra: nat)
    requires
        ranked(scene, ranks),
        forall|k: int| 0 <= k < ranks.len() ==> #[trigger] ranks[k] < scene.objects@.len(),
        scene.roots@.len() > 0,
    ensures
        visible(scene) == visible_from(
            scene,
            scene.objects@.len() + extra,
            scene.roots@[0],
            Seq::empty(),
            no_properties(),
        ),
    decreases extra,
{
    if extra > 0 {
        lemma_nothing_too_deep(scene, ranks, (extra - 1) as nat);
        let root = scene.roots@[0];
        if root < ranks.len() {
            assert(ranks[root as int] < scene.objects@.len());
        }
        lemma_deep_enough(
            scene,
            ranks,
            (scene.objects@.len() + extra - 1) as nat,
            root,
            Seq::empty(),
            no_properties(),
        );
    }
}

/// A visible shape is one that can be drawn.
pub open spec fn seen_drawable(scene: Scene, seen: Seen) -> bool {
    &&& seen.shape < scene.objects@.len()
    &&& scene.objects@[seen.shape as int].kind matches ObjectKind::Shape(shape) && drawable(
        scene,
        shape,
        seen.properties,
    )
    &&& seen.path.len() > 0 && seen.path.last() == seen.shape
}

proof fn lemma_seen_from(scene: Scene, depth: nat, key: usize, path: Seq<usize>, now: Properties)
    ensures
        forall|i: int|
            0 <= i < visible_from(scene, depth, key, path, now).len() ==> seen_drawable(
                scene,
                #[trigger] visible_from(scene, depth, key, path, now)[i],
            ),
    decreases depth, 0nat,
{
    let all = visible_from(scene, depth, key, path, now);
    if depth > 0 && key < scene.objects@.len() && !left_out(scene, scene.objects@[key as int]) {
        let object = scene.objects@[key as int];
        let properties = below_object(scene, object, now);
        let inner = below_node(scene, path, key);
        let less = (depth - 1) as nat;
        match object.kind {
            ObjectKind::Lod { children, levels } => {
                if let Some(child) = lod_child(children@, levels@, 0) {
                    lemma_seen_from(scene, less, child, inner, properties);
                    assert(all == visible_from(scene, less, child, inner, properties));
                }
            },
            ObjectKind::Switch { children, active } => {
                if active < children@.len() {
                    let child = children@[active as int];
                    lemma_seen_from(scene, less, child, inner, properties);
                    assert(all == visible_from(scene, less, child, inner, properties));
                }
            },
            ObjectKind::Group { children } => {
                lemma_seen_among(scene, less, children@, inner, properties);
                assert(all == visible_among(scene, less, children@, inner, properties));
            },
            ObjectKind::Shape(shape) => {
                if drawable(scene, shape, properties) {
                    let seen = Seen { shape: key, path: path.push(key), properties };
                    assert(all == seq![seen]);
                    assert(seen.path.last() == key);
                    assert(seen_drawable(scene, seen));
                }
            },
            _ => {},
        }
    }
}

proof fn lemma_seen_among(
    scene: Scene,
    depth: nat,
    keys: Seq<usize>,
    path: Seq<usize>,
    now: Properties,
)
    ensures
        forall|i: int|
            0 <= i < visible_among(scene, depth, keys, path, now).len() ==> seen_drawable(
                scene,
                #[trigger] visible_among(scene, depth, keys, path, now)[i],
            ),
    decreases depth, keys.len() + 1,
{
    if keys.len() > 0 {
        let front = visible_among(scene, depth, keys.drop_last(), path, now);
        let last = visible_from(scene, depth, keys.last(), path, now);
        lemma_seen_among(scene, depth, keys.drop_last(), path, now);
        lemma_seen_from(scene, depth, keys.last(), path, now);
        let all = visible_among(scene, depth, keys, path, now);
        assert forall|i: int| 0 <= i < all.len() implies seen_drawable(scene, #[trigger] all[i]) by {
            if i < front.len() {
                assert(all[i] == front[i]);
            } else {
                assert(all[i] == last[i - front.len()]);
            }
        }
    }
}

/// Everything visible can be drawn.
pub proof fn lemma_visible_drawable(scene: Scene)
    ensures
        forall|i: int|
            0 <= i < visible(scene).len() ==> seen_drawable(scene, #[trigger] visible(scene)[i]),
{
    if scene.roots@.len() > 0 {
        lemma_seen_from(
            scene,
            scene.objects@.len(),
            scene.roots@[0],
            Seq::empty(),
            no_properties(),
        );
    }
}

fn choose_lod(children: &Vec<usize>, levels: &Vec<[u32; 2]>) -> (r: Option<usize>)
    ensures
        r == lod_child(children@, levels@, 0),
{
    let mut i: usize = 0;
    while i < children.len() && i < levels.len()
        invariant
            i <= children@.len(),
            i <= levels@.len(),
            lod_child(children@, levels@, 0) == lod_child(children@, levels@, i as int),
        decreases children@.len() - i,
    {
        let low: u32 = levels[i][0];
        let high: u32 = levels[i][1];
        if (number_lt(low, LOD_DIST) || number_eq(low, LOD_DIST)) && number_lt(LOD_DIST, high) {
            return Some(children[i]);
        }
        i = i + 1;
    }
    None
}

fn extended(path: &Vec<usize>, key: usize) -> (r: Vec<usize>)
    ensures
        r@ == path@.push(key),
{
    let mut r: Vec<usize> = copied(path.as_slice());
    r.push(key);
    r
}

impl Scene {
    fn apply_property(&self, now: Properties, key: usize) -> (r: Properties)
        ensures
            r == with_property(self.objects@, now, key),
    {
        if key >= self.objects.len() {
            return now;
        }
        match &self.objects[key].kind {
            ObjectKind::Alpha { .. } => Properties {
                alpha: Some(key),
                material: now.material,
                texturing: now.texturing,
            },
            ObjectKind::Material(_) => Properties {
                alpha: now.alpha,
                material: Some(key),
                texturing: now.texturing,
            },
            ObjectKind::Texturing { .. } => Properties {
                alpha: now.alpha,
                material: now.material,
                texturing: Some(key),
            },
            _ => now,
        }
    }

    fn resolved_properties(&self, now: Properties, keys: &Vec<usize>) -> (r: Properties)
        ensures
            r == with_properties(self.objects@, now, keys@),
    {
        let mut properties = now;
        let mut i: usize = 0;
        assert(keys@.take(0) =~= Seq::empty());
        while i < keys.len()
            invariant
                i <= keys@.len(),
                properties == with_properties(self.objects@, now, keys@.take(i as int)),
            decreases keys@.len() - i,
        {
            assert(keys@.take(i + 1).drop_last() =~= keys@.take(i as int));
            properties = self.apply_property(properties, keys[i]);
            i = i + 1;
        }
        assert(keys@.take(i as int) =~= keys@);
        properties
    }

    /// The path of the base texture that the properties name.
    pub fn base_texture_path(&self, properties: Properties) -> (r: Option<&String>)
        ensures
            match r {
                Some(path) => base_texture(self.objects@, properties) == Some(path@),
                None => base_texture(self.objects@, properties) is None,
            },
    {
        match properties.texturing {
            Some(key) => if key < self.objects.len() {
                match &self.objects[key].kind {
                    ObjectKind::Texturing { base } => match base {
                        Some(path) => Some(path),
                        None => None,
                    },
                    _ => None,
                }
            } else {
                None
            },
            None => None,
        }
    }

    /// Whether the properties blend or test alpha.
    pub fn has_alpha(&self, properties: Properties) -> (r: bool)
        ensures
            r == uses_alpha(self.objects@, properties),
    {
        match properties.alpha {
            Some(key) => if key < self.objects.len() {
                match &self.objects[key].kind {
                    ObjectKind::Alpha { blends, tests } => *blends || *tests,
                    _ => false,
                }
            } else {
                false
            },
            None => false,
        }
    }

    /// The material that the properties name.
    pub fn material_property(&self, properties: Properties) -> (r: Option<Material>)
        ensures
            r == material_of(self.objects@, properties),
    {
        match properties.material {
            Some(key) => if key < self.objects.len() {
                match &self.objects[key].kind {
                    ObjectKind::Material(material) => Some(*material),
                    _ => None,
                }
            } else {
                None
            },
            None => None,
        }
    }

    fn is_root(&self, key: usize) -> (r: bool)
        ensures
            r == self.roots@.contains(key),
    {
        let mut i: usize = 0;
        while i < self.roots.len()
            invariant
                i <= self.roots@.len(),
                forall|k: int| 0 <= k < i ==> self.roots@[k] != key,
            decreases self.roots@.len() - i,
        {
            if self.roots[i] == key {
                assert(self.roots@[i as int] == key);
                return true;
            }
            i = i + 1;
        }
        false
    }

    fn is_drawable(&self, shape: &Shape, properties: Properties) -> (r: bool)
        ensures
            r == drawable(*self, *shape, properties),
    {
        if shape.skinned {
            return false;
        }
        let usable: bool = match shape.data {
            Some(at) => at < self.datas.len() && self.datas[at].positions.len() > 0
                && self.datas[at].uvs.len() > 0 && self.datas[at].triangles.len() > 0,
            None => false,
        };
        if !usable {
            return false;
        }
        match self.base_texture_path(properties) {
            Some(path) => is_valid_texture_format(path.as_str()),
            None => false,
        }
    }

    fn is_left_out(&self, object: &SceneObject) -> (r: bool)
        ensures
            r == left_out(*self, *object),
    {
        if let ObjectKind::Hidden = &object.kind {
            return true;
        }
        match &object.presence {
            Some(presence) => presence.culled || (self.has_markers && is_editor_marker(
                presence.name.as_str(),
            )),
            None => false,
        }
    }

    fn visit(
        &self,
        depth: usize,
        key: usize,
        path: &Vec<usize>,
        now: Properties,
        out: &mut Vec<Geometry>,
    )
        ensures
            all_seen(final(out)@) == all_seen(old(out)@) + visible_from(
                *self,
                depth as nat,
                key,
                path@,
                now,
            ),
        decreases depth, 0nat,
    {
        if depth == 0 || key >= self.objects.len() || self.is_left_out(&self.objects[key]) {
            assert(all_seen(out@) + Seq::<Seen>::empty() =~= all_seen(out@));
            return;
        }
        let object = &self.objects[key];
        let properties = match &object.presence {
            Some(presence) => self.resolved_properties(now, &presence.properties),
            None => now,
        };
        match &object.kind {
            ObjectKind::Lod { children, levels } => {
                let inner = self.path_below(path, key);
                if let Some(child) = choose_lod(children, levels) {
                    self.visit(depth - 1, child, &inner, properties, out);
                    return;
                }
            },
            ObjectKind::Switch { children, active } => {
                let inner = self.path_below(path, key);
                if *active < children.len() {
                    self.visit(depth - 1, children[*active], &inner, properties, out);
                    return;
                }
            },
            ObjectKind::Group { children } => {
                let inner = self.path_below(path, key);
                self.visit_all(depth - 1, children, &inner, properties, out);
                return;
            },
            ObjectKind::Shape(shape) => {
                if self.is_drawable(shape, properties) {
                    let ghost before = out@;
                    let seen = Geometry { shape: key, path: extended(path, key), properties };
                    let ghost view = seen@;
                    out.push(seen);
                    assert(all_seen(out@) =~= all_seen(before) + seq![view]);
                    return;
                }
            },
            _ => {},
        }
        assert(all_seen(out@) + Seq::<Seen>::empty() =~= all_seen(out@));
    }

    fn visit_all(
        &self,
        depth: usize,
        keys: &Vec<usize>,
        path: &Vec<usize>,
        now: Properties,
        out: &mut Vec<Geometry>,
    )
        ensures
            all_seen(final(out)@) == all_seen(old(out)@) + visible_among(
                *self,
                depth as nat,
                keys@,
                path@,
                now,
            ),
        decreases depth, 1nat,
    {
        let mut i: usize = 0;
        assert(keys@.take(0) =~= Seq::empty());
        assert(all_seen(out@) + Seq::<Seen>::empty() =~= all_seen(out@));
        while i < keys.len()
            invariant
                i <= keys@.len(),
                all_seen(out@) == all_seen(old(out)@) + visible_among(
                    *self,
                    depth as nat,
                    keys@.take(i as int),
                    path@,
                    now,
                ),
            decreases keys@.len() - i,
        {
            let ghost before = visible_among(*self, depth as nat, keys@.take(i as int), path@, now);
            self.visit(depth, keys[i], path, now, out);
            proof {
                let next = keys@.take(i + 1);
                assert(next.drop_last() =~= keys@.take(i as int));
                assert(next.last() == keys@[i as int]);
                let added = visible_from(*self, depth as nat, keys@[i as int], path@, now);
                assert((all_seen(old(out)@) + before) + added =~= all_seen(old(out)@) + (before
                    + added));
            }
            i = i + 1;
        }
        assert(keys@.take(i as int) =~= keys@);
    }

    fn path_below(&self, path: &Vec<usize>, key: usize) -> (r: Vec<usize>)
        ensures
            r@ == below_node(*self, path@, key),
    {
        if self.is_root(key) {
            copied(path.as_slice())
        } else {
            extended(path, key)
        }
    }

    /// The visible shapes of the scene, in scene order.
    pub fn visible_geometries(&self) -> (r: Vec<Geometry>)
        ensures
            all_seen(r@) == visible(*self),
    {
        let mut out: Vec<Geometry> = Vec::new();
        assert(all_seen(out@) =~= Seq::empty());
        if self.roots.len() > 0 {
            let start: Vec<usize> = Vec::new();
            let none = Properties { alpha: None, material: None, texturing: None };
            self.visit(self.objects.len(), self.roots[0], &start, none, &mut out);
            assert(all_seen(out@) =~= visible(*self));
        }
        out
    }
}

/// The shape asks for scrolling in the distance: it has a controller of texture coordinates and the
/// author's consent.
pub open spec fn scrolls(shape: Shape) -> bool {
    shape.has_uv_controller && exists|i: int|
        0 <= i < shape.strings@.len() && lower_text((#[trigger] shape.strings@[i])@) == lower_text(
            "mge.distant.scroll"@,
        )
}

impl Shape {
    /// Whether the shape asks for scrolling in the distance.
    pub fn has_uv_controller(&self) -> (r: bool)
        ensures
            r == scrolls(*self),
    {
        if !self.has_uv_controller {
            return false;
        }
        let mut i: usize = 0;
        while i < self.strings.len()
            invariant
                i <= self.strings@.len(),
                self.has_uv_controller,
                forall|k: int|
                    0 <= k < i ==> lower_text((#[trigger] self.strings@[k])@) != lower_text(
                        "mge.distant.scroll"@,
                    ),
            decreases self.strings@.len() - i,
        {
            if uncased_equal(self.strings[i].as_str(), "mge.distant.scroll") {
                assert(lower_text(self.strings@[i as int]@) == lower_text("mge.distant.scroll"@));
                return true;
            }
            i = i + 1;
        }
        false
    }
}

} // verus!
