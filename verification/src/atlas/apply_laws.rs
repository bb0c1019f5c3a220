//! Laws of binding: what it leaves alone, and that the collected textures are all it takes.

use crate::atlas::apply::{
    binding_fails, is_bound, static_uses, statics_use, uses_texture, UvUpdateError,
};
use crate::atlas::sizing::AtlasDomain;
use crate::atlas::types::UvBound;
use crate::model::merge::SubsetView;
use crate::model::{DistantStatic, StaticType, SubsetTexture, TextureNames};
use vstd::prelude::*;

verus! {

/// The texture key that a subset's symbol stands for.
pub open spec fn stands_for_key(
    texture: SubsetTexture,
    names: TextureNames,
    key: Seq<char>,
) -> bool {
    &&& texture matches SubsetTexture::Source(sym) && sym.0 != 0 && sym.0 < names.keys@.len()
        && names.keys@[sym.0 as int] is Some && names.keys@[sym.0 as int]->0@ == key
}

/// The bindings that a subset is bound by: those of blended textures for one that blends.
pub open spec fn own_bindings(
    subset: SubsetView,
    opaque: Map<Seq<char>, (usize, UvBound)>,
    alpha: Map<Seq<char>, (usize, UvBound)>,
) -> Map<Seq<char>, (usize, UvBound)> {
    if subset.has_alpha {
        alpha
    } else {
        opaque
    }
}

/// Binding changes nothing of a subset but its page and the bounds: every vertex gets the one bound
/// that its texture has, and keeps the rest. An animated subset stays as it is.
pub proof fn lemma_binding_changes_bounds_only(
    before: SubsetView,
    after: SubsetView,
    opaque: Map<Seq<char>, (usize, UvBound)>,
    alpha: Map<Seq<char>, (usize, UvBound)>,
    names: TextureNames,
)
    requires
        is_bound(before, after, opaque, alpha, names),
    ensures
        after.triangles == before.triangles,
        after.components == before.components,
        after.bounding_sphere == before.bounding_sphere,
        after.bounding_box == before.bounding_box,
        after.has_alpha == before.has_alpha,
        after.has_uv_controller == before.has_uv_controller,
        after.emissive == before.emissive,
        after.vertices.len() == before.vertices.len(),
        forall|i: int|
            0 <= i < before.vertices.len() ==> {
                &&& (#[trigger] after.vertices[i]).position == before.vertices[i].position
                &&& after.vertices[i].normal == before.vertices[i].normal
                &&& after.vertices[i].uv == before.vertices[i].uv
                &&& after.vertices[i].color == before.vertices[i].color
            },
        before.has_uv_controller ==> after == before,
        !before.has_uv_controller ==> exists|key: Seq<char>|
            {
                let map = own_bindings(before, opaque, alpha);
                &&& #[trigger] stands_for_key(before.texture, names, key)
                &&& map.dom().contains(key)
                &&& after.texture == SubsetTexture::AtlasPage(map[key].0 as u32)
                &&& map[key].0 <= u32::MAX
                &&& after.uv_bounds.len() == 1 && after.uv_bounds[0] == map[key].1
                &&& forall|i: int|
                    0 <= i < after.vertices.len() ==> (#[trigger] after.vertices[i]).uv_bound
                        == map[key].1
            },
{
    if !before.has_uv_controller {
        let key = crate::atlas::apply::source_key(before, names)->0;
        assert(stands_for_key(before.texture, names, key));
    }
}

/// A texture is collected for a domain exactly where a subset of a static other than grass, not
/// animated and blended or not as the domain says, stands for it.
pub proof fn lemma_texture_used(
    statics: Seq<(String, DistantStatic)>,
    names: TextureNames,
    domain: AtlasDomain,
    key: Seq<char>,
)
    ensures
        statics_use(statics, names, domain, key, statics.len() as int) <==> exists|i: int, s: int|
            {
                &&& 0 <= i < statics.len() && 0 <= s < statics[i].1.subsets@.len()
                &&& !(statics[i].1.static_type is StaticGrass)
                &&& !statics[i].1.subsets@[s].has_uv_controller
                &&& statics[i].1.subsets@[s].has_alpha == (domain is Alpha)
                &&& stands_for_key((#[trigger] statics[i].1.subsets@[s]).texture, names, key)
            },
{
    let n = statics.len() as int;
    if statics_use(statics, names, domain, key, n) {
        let i = choose|i: int|
            0 <= i < n && #[trigger] static_uses(statics[i].1, names, domain, key);
        let subsets = statics[i].1.subsets@;
        let s = choose|s: int|
            0 <= s < subsets.len() && #[trigger] uses_texture(subsets[s], names, domain, key);
        assert(stands_for_key(statics[i].1.subsets@[s].texture, names, key));
    }
    if exists|i: int, s: int|
        {
            &&& 0 <= i < statics.len() && 0 <= s < statics[i].1.subsets@.len()
            &&& !(statics[i].1.static_type is StaticGrass)
            &&& !statics[i].1.subsets@[s].has_uv_controller
            &&& statics[i].1.subsets@[s].has_alpha == (domain is Alpha)
            &&& stands_for_key((#[trigger] statics[i].1.subsets@[s]).texture, names, key)
        } {
        let (i, s) = choose|i: int, s: int|
            {
                &&& 0 <= i < statics.len() && 0 <= s < statics[i].1.subsets@.len()
                &&& !(statics[i].1.static_type is StaticGrass)
                &&& !statics[i].1.subsets@[s].has_uv_controller
                &&& statics[i].1.subsets@[s].has_alpha == (domain is Alpha)
                &&& stands_for_key((#[trigger] statics[i].1.subsets@[s]).texture, names, key)
            };
        assert(uses_texture(statics[i].1.subsets@[s], names, domain, key));
        assert(static_uses(statics[i].1, names, domain, key));
    }
}

/// Bindings that hold every collected texture are enough: a subset that has a source texture can
/// then be bound.
pub proof fn lemma_collected_textures_suffice(
    statics: Seq<(String, DistantStatic)>,
    names: TextureNames,
    opaque: Map<Seq<char>, (usize, UvBound)>,
    alpha: Map<Seq<char>, (usize, UvBound)>,
    i: int,
    s: int,
    key: Seq<char>,
    after: SubsetView,
    error: UvUpdateError,
)
    requires
        forall|k: Seq<char>|
            statics_use(statics, names, AtlasDomain::Opaque, k, statics.len() as int)
                ==> #[trigger] opaque.dom().contains(k) && opaque[k].0 <= u32::MAX,
        forall|k: Seq<char>|
            statics_use(statics, names, AtlasDomain::Alpha, k, statics.len() as int)
                ==> #[trigger] alpha.dom().contains(k) && alpha[k].0 <= u32::MAX,
        0 <= i < statics.len(),
        statics[i].1.static_type != StaticType::StaticGrass,
        0 <= s < statics[i].1.subsets@.len(),
        stands_for_key(statics[i].1.subsets@[s].texture, names, key),
    ensures
        !binding_fails(statics[i].1.subsets@[s]@, after, opaque, alpha, names, error),
{
    let subset = statics[i].1.subsets@[s];
    let domain = if subset.has_alpha {
        AtlasDomain::Alpha
    } else {
        AtlasDomain::Opaque
    };
    if !subset.has_uv_controller {
        assert(stands_for_key((statics[i].1.subsets@[s]).texture, names, key));
        lemma_texture_used(statics, names, domain, key);
        assert(statics_use(statics, names, domain, key, statics.len() as int));
        if subset.has_alpha {
            assert(alpha.dom().contains(key));
        } else {
            assert(opaque.dom().contains(key));
        }
    }
}

} // verus!
