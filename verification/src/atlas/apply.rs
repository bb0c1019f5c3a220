//! Textures of the statics, and writing atlas bindings back to them.

use crate::atlas::group::lists_text;
use crate::atlas::sizing::AtlasDomain;
use crate::atlas::types::{AtlasTextureSet, UvBound};
use crate::atlas::uv::FrameMap;
use crate::model::merge::{corners, views, SubsetView};
use crate::model::{
    key_of, source_of, DistantStatic, StaticType, Subset, SubsetTexture, TextureNames, TextureSym,
    Vertex,
};
use crate::ordered_map::OrderedTextMap;
use crate::text::{ascending, text_lt, texts};
use vstd::prelude::*;

verus! {

/// Intermediate distant statics with their normalized source mesh paths.
pub type DistantStatics = Vec<(String, DistantStatic)>;

/// The domain that a subset's texture belongs to.
pub open spec fn domain_of(subset: SubsetView) -> AtlasDomain {
    if subset.has_alpha {
        AtlasDomain::Alpha
    } else {
        AtlasDomain::Opaque
    }
}

/// The source texture key of a subset, where it has one.
pub open spec fn source_key(subset: SubsetView, names: TextureNames) -> Option<Seq<char>> {
    match source_of(subset.texture) {
        Some(sym) => key_of(names, sym),
        None => None,
    }
}

// ---------------------------------------------------------------------------------------------
// Collecting
// ---------------------------------------------------------------------------------------------

/// The subset uses the texture in the domain: it is atlased, not animated, and of that key.
pub open spec fn uses_texture(
    subset: Subset,
    names: TextureNames,
    domain: AtlasDomain,
    key: Seq<char>,
) -> bool {
    &&& !subset.has_uv_controller
    &&& domain_of(subset@) == domain
    &&& source_key(subset@, names) == Some(key)
}

/// Some of the first `end` subsets uses the texture.
pub open spec fn subsets_use(
    subsets: Seq<Subset>,
    names: TextureNames,
    domain: AtlasDomain,
    key: Seq<char>,
    end: int,
) -> bool {
    exists|s: int| 0 <= s < end && #[trigger] uses_texture(subsets[s], names, domain, key)
}

/// The static uses the texture. Grass is not atlased.
pub open spec fn static_uses(
    distant_static: DistantStatic,
    names: TextureNames,
    domain: AtlasDomain,
    key: Seq<char>,
) -> bool {
    distant_static.static_type != StaticType::StaticGrass && subsets_use(
        distant_static.subsets@,
        names,
        domain,
        key,
        distant_static.subsets@.len() as int,
    )
}

/// Some of the first `end` statics uses the texture.
pub open spec fn statics_use(
    statics: Seq<(String, DistantStatic)>,
    names: TextureNames,
    domain: AtlasDomain,
    key: Seq<char>,
    end: int,
) -> bool {
    exists|i: int| 0 <= i < end && #[trigger] static_uses(statics[i].1, names, domain, key)
}

fn is_grass(distant_static: &DistantStatic) -> (r: bool)
    ensures
        r == (distant_static.static_type == StaticType::StaticGrass),
{
    match distant_static.static_type {
        StaticType::StaticGrass => true,
        _ => false,
    }
}

fn subset_domain(subset: &Subset) -> (r: AtlasDomain)
    ensures
        r == domain_of(subset@),
{
    if subset.has_alpha {
        AtlasDomain::Alpha
    } else {
        AtlasDomain::Opaque
    }
}

fn collect_static(
    distant_static: &DistantStatic,
    names: &TextureNames,
    domain: AtlasDomain,
    keys: &mut OrderedTextMap<bool>,
)
    requires
        old(keys).wf(),
    ensures
        final(keys).wf(),
        forall|key: Seq<char>| #[trigger]
            final(keys)@.dom().contains(key) <==> old(keys)@.dom().contains(key) || static_uses(
                *distant_static,
                *names,
                domain,
                key,
            ),
{
    if is_grass(distant_static) {
        return;
    }
    let subsets = &distant_static.subsets;
    let mut s: usize = 0;
    while s < subsets.len()
        invariant
            s <= subsets@.len(),
            keys.wf(),
            forall|key: Seq<char>| #[trigger]
                keys@.dom().contains(key) <==> old(keys)@.dom().contains(key) || subsets_use(
                    subsets@,
                    *names,
                    domain,
                    key,
                    s as int,
                ),
        decreases subsets@.len() - s,
    {
        let ghost before = keys@;
        let subset = &subsets[s];
        let mut found: Option<String> = None;
        if !subset.has_uv_controller && subset_domain(subset) == domain {
            match subset.texture.source_sym() {
                Some(sym) => match names.texture_key_for_sym(sym) {
                    Some(key) => {
                        found = Some(key.to_owned());
                    },
                    None => {},
                },
                None => {},
            }
        }
        proof {
            assert forall|key: Seq<char>| #[trigger]
                uses_texture(subsets@[s as int], *names, domain, key) <==> found is Some && found->0@
                == key by {}
        }
        let ghost new_key = found;
        match found {
            Some(key) => {
                keys.insert(key, true);
            },
            None => {},
        }
        proof {
            assert forall|key: Seq<char>| #[trigger] keys@.dom().contains(key) <==> old(
                keys,
            )@.dom().contains(key) || subsets_use(subsets@, *names, domain, key, s + 1) by {
                assert(before.dom().contains(key) <==> old(keys)@.dom().contains(key)
                    || subsets_use(subsets@, *names, domain, key, s as int));
                if subsets_use(subsets@, *names, domain, key, s as int) {
                    let k = choose|k: int|
                        0 <= k < s && #[trigger] uses_texture(subsets@[k], *names, domain, key);
                    assert(uses_texture(subsets@[k], *names, domain, key));
                }
                if uses_texture(subsets@[s as int], *names, domain, key) {
                    assert(subsets_use(subsets@, *names, domain, key, s + 1));
                }
                if subsets_use(subsets@, *names, domain, key, s + 1) && !subsets_use(
                    subsets@,
                    *names,
                    domain,
                    key,
                    s as int,
                ) {
                    let k = choose|k: int|
                        0 <= k < s + 1 && #[trigger] uses_texture(subsets@[k], *names, domain, key);
                    assert(k == s);
                }
            }
        }
        s = s + 1;
    }
}

fn collect_domain(
    statics: &DistantStatics,
    names: &TextureNames,
    domain: AtlasDomain,
) -> (r: Vec<String>)
    ensures
        ascending(texts(r@)),
        forall|key: Seq<char>| #[trigger]
            lists_text(r@, key) <==> statics_use(
                statics@,
                *names,
                domain,
                key,
                statics@.len() as int,
            ),
{
    let mut keys: OrderedTextMap<bool> = OrderedTextMap::new();
    let mut i: usize = 0;
    while i < statics.len()
        invariant
            i <= statics@.len(),
            keys.wf(),
            forall|key: Seq<char>| #[trigger]
                keys@.dom().contains(key) <==> statics_use(
                    statics@,
                    *names,
                    domain,
                    key,
                    i as int,
                ),
        decreases statics@.len() - i,
    {
        let ghost before = keys@;
        collect_static(&statics[i].1, names, domain, &mut keys);
        proof {
            assert forall|key: Seq<char>| #[trigger] keys@.dom().contains(key) <==> statics_use(
                statics@,
                *names,
                domain,
                key,
                i + 1,
            ) by {
                assert(before.dom().contains(key) <==> statics_use(
                    statics@,
                    *names,
                    domain,
                    key,
                    i as int,
                ));
                if statics_use(statics@, *names, domain, key, i as int) {
                    let k = choose|k: int|
                        0 <= k < i && #[trigger] static_uses(statics@[k].1, *names, domain, key);
                    assert(static_uses(statics@[k].1, *names, domain, key));
                }
                if static_uses(statics@[i as int].1, *names, domain, key) {
                    assert(statics_use(statics@, *names, domain, key, i + 1));
                }
                if statics_use(statics@, *names, domain, key, i + 1) && !statics_use(
                    statics@,
                    *names,
                    domain,
                    key,
                    i as int,
                ) {
                    let k = choose|k: int|
                        0 <= k < i + 1 && #[trigger] static_uses(
                            statics@[k].1,
                            *names,
                            domain,
                            key,
                        );
                    assert(k == i);
                }
            }
        }
        i = i + 1;
    }
    let mut list: Vec<String> = Vec::new();
    let mut k: usize = 0;
    while k < keys.len()
        invariant
            k <= keys.listed().len(),
            list@.len() == k,
            forall|n: int| 0 <= n < k ==> #[trigger] list@[n] == keys.listed()[n].0,
        decreases keys.listed().len() - k,
    {
        list.push(keys.key_at(k).clone());
        k = k + 1;
    }
    proof {
        assert forall|a: int, b: int| 0 <= a < b < texts(list@).len() implies text_lt(
            #[trigger] texts(list@)[a],
            #[trigger] texts(list@)[b],
        ) by {
            assert(list@[a] == keys.listed()[a].0);
            assert(list@[b] == keys.listed()[b].0);
        }
        assert forall|key: Seq<char>| #[trigger] lists_text(list@, key) <==> keys@.dom().contains(
            key,
        ) by {
            if lists_text(list@, key) {
                let n = choose|n: int| 0 <= n < list@.len() && (#[trigger] list@[n])@ == key;
                assert(keys.listed()[n].0@ == key);
            }
            if keys@.dom().contains(key) {
                let n = choose|n: int|
                    0 <= n < keys.listed().len() && (#[trigger] keys.listed()[n]).0@ == key;
                assert(list@[n]@ == key);
            }
        }
    }
    list
}

impl AtlasTextureSet<Vec<String>> {
    /// Collects unique normalized texture keys referenced by the current statics, sorted.
    ///
    /// Grass is not atlased, and neither are subsets with animated UVs.
    pub fn from_distant_statics(names: &TextureNames, distant_statics: &DistantStatics) -> (r: Self)
        ensures
            ascending(texts(r.opaque@)),
            ascending(texts(r.alpha@)),
            forall|key: Seq<char>| #[trigger]
                lists_text(r.opaque@, key) <==> statics_use(
                    distant_statics@,
                    *names,
                    AtlasDomain::Opaque,
                    key,
                    distant_statics@.len() as int,
                ),
            forall|key: Seq<char>| #[trigger]
                lists_text(r.alpha@, key) <==> statics_use(
                    distant_statics@,
                    *names,
                    AtlasDomain::Alpha,
                    key,
                    distant_statics@.len() as int,
                ),
    {
        AtlasTextureSet {
            opaque: collect_domain(distant_statics, names, AtlasDomain::Opaque),
            alpha: collect_domain(distant_statics, names, AtlasDomain::Alpha),
        }
    }
}

// ---------------------------------------------------------------------------------------------
// Binding
// ---------------------------------------------------------------------------------------------

/// Why a subset could not be bound to the atlas.
#[derive(Debug)]
pub enum UvUpdateError {
    /// The subset names no source texture.
    NoSource { domain: AtlasDomain },
    /// The subset's texture symbol stands for nothing.
    Unresolved { domain: AtlasDomain },
    /// The atlas has no region for the texture.
    Missing { domain: AtlasDomain, key: String },
    /// The page number does not fit 32 bits.
    PageExceedsRange,
}

/// The failure in words.
pub open spec fn uv_error_text(error: UvUpdateError) -> Seq<char> {
    match error {
        UvUpdateError::NoSource { domain } => "subset has no source texture before "@ + domain_text(
            domain,
        ) + " atlas UV update"@,
        UvUpdateError::Unresolved { domain } =>
        "subset source texture symbol could not be resolved for "@ + domain_text(domain)
            + " atlas UV update"@,
        UvUpdateError::Missing { domain, key } => "missing "@ + domain_text(domain)
            + " atlas UV bounds for texture key '"@ + key@ + "'"@,
        UvUpdateError::PageExceedsRange => "atlas page id exceeds u32"@,
    }
}

/// The name of a domain.
pub open spec fn domain_text(domain: AtlasDomain) -> Seq<char> {
    match domain {
        AtlasDomain::Opaque => "opaque"@,
        AtlasDomain::Alpha => "alpha"@,
    }
}

impl UvUpdateError {
    /// The failure in words.
    pub fn message(&self) -> (r: String)
        ensures
            r@ == uv_error_text(*self),
    {
        match self {
            UvUpdateError::NoSource { domain } => {
                let mut text = "subset has no source texture before ".to_owned();
                text.append(domain.as_str());
                text.append(" atlas UV update");
                text
            },
            UvUpdateError::Unresolved { domain } => {
                let mut text = "subset source texture symbol could not be resolved for ".to_owned();
                text.append(domain.as_str());
                text.append(" atlas UV update");
                text
            },
            UvUpdateError::Missing { domain, key } => {
                let mut text = "missing ".to_owned();
                text.append(domain.as_str());
                text.append(" atlas UV bounds for texture key '");
                text.append(key.as_str());
                text.append("'");
                text
            },
            UvUpdateError::PageExceedsRange => "atlas page id exceeds u32".to_owned(),
        }
    }
}

/// The bindings of a domain.
pub open spec fn bindings_for(
    opaque: Map<Seq<char>, (usize, UvBound)>,
    alpha: Map<Seq<char>, (usize, UvBound)>,
    domain: AtlasDomain,
) -> Map<Seq<char>, (usize, UvBound)> {
    match domain {
        AtlasDomain::Opaque => opaque,
        AtlasDomain::Alpha => alpha,
    }
}

/// The subset with one bound on every vertex, and only that bound listed.
pub open spec fn with_bound(subset: SubsetView, bound: UvBound) -> SubsetView {
    SubsetView {
        vertices: subset.vertices.map_values(
            |vertex: Vertex| Vertex { uv_bound: bound, ..vertex },
        ),
        uv_bounds: seq![bound],
        ..subset
    }
}

/// The subset is bound: animated subsets stay as they are, others take the bound and the page that
/// their texture has in their domain.
pub open spec fn is_bound(
    before: SubsetView,
    after: SubsetView,
    opaque: Map<Seq<char>, (usize, UvBound)>,
    alpha: Map<Seq<char>, (usize, UvBound)>,
    names: TextureNames,
) -> bool {
    if before.has_uv_controller {
        after == before
    } else {
        let map = bindings_for(opaque, alpha, domain_of(before));
        &&& source_key(before, names) matches Some(key) && {
            &&& map.dom().contains(key)
            &&& map[key].0 <= u32::MAX
            &&& after == (SubsetView {
                texture: SubsetTexture::AtlasPage(map[key].0 as u32),
                ..with_bound(before, map[key].1)
            })
        }
    }
}

/// The subset cannot be bound, and `error` says why. A page out of range is found only after the
/// bound is set.
pub open spec fn binding_fails(
    before: SubsetView,
    after: SubsetView,
    opaque: Map<Seq<char>, (usize, UvBound)>,
    alpha: Map<Seq<char>, (usize, UvBound)>,
    names: TextureNames,
    error: UvUpdateError,
) -> bool {
    let domain = domain_of(before);
    let map = bindings_for(opaque, alpha, domain);
    &&& !before.has_uv_controller
    &&& match error {
        UvUpdateError::NoSource { domain: named } => {
            &&& named == domain
            &&& source_of(before.texture) is None
            &&& after == before
        },
        UvUpdateError::Unresolved { domain: named } => {
            &&& named == domain
            &&& source_of(before.texture) is Some
            &&& source_key(before, names) is None
            &&& after == before
        },
        UvUpdateError::Missing { domain: named, key } => {
            &&& named == domain
            &&& source_key(before, names) == Some(key@)
            &&& !map.dom().contains(key@)
            &&& after == before
        },
        UvUpdateError::PageExceedsRange => source_key(before, names) matches Some(key) && {
            &&& map.dom().contains(key)
            &&& map[key].0 > u32::MAX
            &&& after == with_bound(before, map[key].1)
        },
    }
}

fn bind_subset(
    subset: &mut Subset,
    opaque_map: &FrameMap,
    alpha_map: &FrameMap,
    names: &TextureNames,
) -> (r: Result<(), UvUpdateError>)
    requires
        opaque_map.wf(),
        alpha_map.wf(),
    ensures
        match r {
            Ok(_) => is_bound(
                old(subset)@,
                final(subset)@,
                opaque_map@,
                alpha_map@,
                *names,
            ),
            Err(e) => binding_fails(
                old(subset)@,
                final(subset)@,
                opaque_map@,
                alpha_map@,
                *names,
                e,
            ),
        },
{
    if subset.has_uv_controller {
        return Ok(());
    }
    let domain: AtlasDomain = subset_domain(subset);
    let sym: TextureSym = match subset.texture.source_sym() {
        Some(sym) => sym,
        None => return Err(UvUpdateError::NoSource { domain }),
    };
    let key = match names.texture_key_for_sym(sym) {
        Some(key) => key,
        None => return Err(UvUpdateError::Unresolved { domain }),
    };
    let found = match domain {
        AtlasDomain::Opaque => opaque_map.get(key),
        AtlasDomain::Alpha => alpha_map.get(key),
    };
    let (page, bound): (usize, UvBound) = match found {
        Some(entry) => *entry,
        None => return Err(UvUpdateError::Missing { domain, key: key.to_owned() }),
    };
    let ghost before = subset@;
    let ghost goal = with_bound(before, bound);
    let total: usize = subset.vertices.len();
    let mut v: usize = 0;
    while v < total
        invariant
            v <= total,
            total == before.vertices.len(),
            subset.vertices@.len() == total,
            goal == with_bound(before, bound),
            forall|k: int| 0 <= k < v ==> #[trigger] subset.vertices@[k] == goal.vertices[k],
            forall|k: int| v <= k < total ==> #[trigger] subset.vertices@[k] == before.vertices[k],
            subset@ == (SubsetView { vertices: subset.vertices@, ..before }),
        decreases total - v,
    {
        let mut vertex: Vertex = subset.vertices[v];
        vertex.uv_bound = bound;
        let ghost raw = *subset;
        subset.vertices.set(v, vertex);
        proof {
            assert(vertex == goal.vertices[v as int]);
            assert(corners(subset.triangles@) == corners(raw.triangles@));
        }
        v = v + 1;
    }
    let mut bounds: Vec<UvBound> = Vec::new();
    bounds.push(bound);
    subset.uv_bounds = bounds;
    proof {
        assert(subset@.vertices =~= goal.vertices);
        assert(subset@.uv_bounds =~= goal.uv_bounds);
        assert(subset@ == goal);
    }
    if page > 0xffff_ffff {
        return Err(UvUpdateError::PageExceedsRange);
    }
    subset.texture = SubsetTexture::AtlasPage(page as u32);
    Ok(())
}

/// All subsets among the first `end` are bound.
pub open spec fn subsets_bound(
    before: Seq<SubsetView>,
    after: Seq<SubsetView>,
    opaque: Map<Seq<char>, (usize, UvBound)>,
    alpha: Map<Seq<char>, (usize, UvBound)>,
    names: TextureNames,
    end: int,
) -> bool {
    &&& after.len() == before.len()
    &&& forall|s: int|
        0 <= s < end ==> is_bound(
            #[trigger] before[s],
            after[s],
            opaque,
            alpha,
            names,
        )
}

/// Subset `s` is the first that cannot be bound; those behind it are as they were.
pub open spec fn subset_fails_at(
    before: Seq<SubsetView>,
    after: Seq<SubsetView>,
    opaque: Map<Seq<char>, (usize, UvBound)>,
    alpha: Map<Seq<char>, (usize, UvBound)>,
    names: TextureNames,
    error: UvUpdateError,
    s: int,
) -> bool {
    &&& 0 <= s < before.len()
    &&& subsets_bound(before, after, opaque, alpha, names, s)
    &&& binding_fails(before[s], after[s], opaque, alpha, names, error)
    &&& forall|k: int| s < k < before.len() ==> #[trigger] after[k] == before[k]
}

/// The static is bound. Grass keeps its native textures.
pub open spec fn static_bound(
    before: DistantStatic,
    after: DistantStatic,
    opaque: Map<Seq<char>, (usize, UvBound)>,
    alpha: Map<Seq<char>, (usize, UvBound)>,
    names: TextureNames,
) -> bool {
    if before.static_type == StaticType::StaticGrass {
        after == before
    } else {
        &&& after == (DistantStatic { subsets: after.subsets, ..before })
        &&& subsets_bound(
            views(before.subsets@),
            views(after.subsets@),
            opaque,
            alpha,
            names,
            before.subsets@.len() as int,
        )
    }
}

/// The static cannot be bound.
pub open spec fn static_fails(
    before: DistantStatic,
    after: DistantStatic,
    opaque: Map<Seq<char>, (usize, UvBound)>,
    alpha: Map<Seq<char>, (usize, UvBound)>,
    names: TextureNames,
    error: UvUpdateError,
) -> bool {
    &&& before.static_type != StaticType::StaticGrass
    &&& after == (DistantStatic { subsets: after.subsets, ..before })
    &&& exists|s: int| #[trigger]
        subset_fails_at(
            views(before.subsets@),
            views(after.subsets@),
            opaque,
            alpha,
            names,
            error,
            s,
        )
}

fn bind_static(
    distant_static: &mut DistantStatic,
    opaque_map: &FrameMap,
    alpha_map: &FrameMap,
    names: &TextureNames,
) -> (r: Result<(), UvUpdateError>)
    requires
        opaque_map.wf(),
        alpha_map.wf(),
    ensures
        match r {
            Ok(_) => static_bound(
                *old(distant_static),
                *final(distant_static),
                opaque_map@,
                alpha_map@,
                *names,
            ),
            Err(e) => static_fails(
                *old(distant_static),
                *final(distant_static),
                opaque_map@,
                alpha_map@,
                *names,
                e,
            ),
        },
{
    if is_grass(distant_static) {
        return Ok(());
    }
    let ghost before = views(distant_static.subsets@);
    let total: usize = distant_static.subsets.len();
    let mut s: usize = 0;
    while s < total
        invariant
            s <= total,
            total == before.len(),
            opaque_map.wf(),
            alpha_map.wf(),
            before == views(old(distant_static).subsets@),
            old(distant_static).static_type != StaticType::StaticGrass,
            *distant_static == (DistantStatic {
                subsets: distant_static.subsets,
                ..*old(distant_static)
            }),
            subsets_bound(
                before,
                views(distant_static.subsets@),
                opaque_map@,
                alpha_map@,
                *names,
                s as int,
            ),
            forall|k: int|
                s <= k < total ==> #[trigger] views(distant_static.subsets@)[k] == before[k],
        decreases total - s,
    {
        let ghost list = distant_static.subsets@;
        let ghost raw = views(list);
        assert(raw.len() == total);
        assert(raw[s as int] == list[s as int]@);
        let subset: &mut Subset = &mut distant_static.subsets[s];
        let outcome = bind_subset(subset, opaque_map, alpha_map, names);
        proof {
            let now = views(distant_static.subsets@);
            assert forall|k: int| 0 <= k < total && k != s implies #[trigger] now[k]
                == raw[k] by {
                assert(distant_static.subsets@[k] == list[k]);
            }
            assert forall|k: int| 0 <= k < s implies is_bound(
                #[trigger] before[k],
                now[k],
                opaque_map@,
                alpha_map@,
                *names,
            ) by {
                assert(now[k] == raw[k]);
            }
        }
        match outcome {
            Ok(_) => {},
            Err(e) => {
                proof {
                    let now = views(distant_static.subsets@);
                    assert(subset_fails_at(
                        before,
                        now,
                        opaque_map@,
                        alpha_map@,
                        *names,
                        e,
                        s as int,
                    )) by {
                        assert forall|k: int| s < k < before.len() implies #[trigger] now[k]
                            == before[k] by {
                            assert(now[k] == raw[k]);
                        }
                    }
                }
                return Err(e);
            },
        }
        s = s + 1;
    }
    Ok(())
}

/// Static `i` is the first that cannot be bound; those behind it are as they were.
pub open spec fn statics_fail_at(
    before: Seq<(String, DistantStatic)>,
    after: Seq<(String, DistantStatic)>,
    opaque: Map<Seq<char>, (usize, UvBound)>,
    alpha: Map<Seq<char>, (usize, UvBound)>,
    names: TextureNames,
    error: UvUpdateError,
    i: int,
) -> bool {
    &&& 0 <= i < before.len()
    &&& forall|k: int|
        0 <= k < i ==> static_bound((#[trigger] before[k]).1, after[k].1, opaque, alpha, names)
    &&& static_fails(before[i].1, after[i].1, opaque, alpha, names, error)
    &&& forall|k: int| i < k < before.len() ==> #[trigger] after[k] == before[k]
}

/// Writes per-vertex UV bounds and updates each subset's texture to the atlas page.
///
/// For every subset, the normalized texture key is looked up in `opaque_map` or `alpha_map`
/// depending on `has_alpha`. Every vertex in the subset receives the same bound.
///
/// # Errors
///
/// Fails at the first subset whose texture is not found in the appropriate map, which indicates
/// stale or malformed atlas evidence.
pub fn update_uv_bounds_from_maps(
    distant_statics: &mut DistantStatics,
    opaque_map: &FrameMap,
    alpha_map: &FrameMap,
    names: &TextureNames,
) -> (r: Result<(), UvUpdateError>)
    requires
        opaque_map.wf(),
        alpha_map.wf(),
    ensures
        final(distant_statics)@.len() == old(distant_statics)@.len(),
        forall|i: int|
            0 <= i < old(distant_statics)@.len() ==> (#[trigger] final(distant_statics)@[i]).0
                == old(distant_statics)@[i].0,
        match r {
            Ok(_) => forall|i: int|
                0 <= i < old(distant_statics)@.len() ==> static_bound(
                    (#[trigger] old(distant_statics)@[i]).1,
                    final(distant_statics)@[i].1,
                    opaque_map@,
                    alpha_map@,
                    *names,
                ),
            Err(e) => exists|i: int| #[trigger]
                statics_fail_at(
                    old(distant_statics)@,
                    final(distant_statics)@,
                    opaque_map@,
                    alpha_map@,
                    *names,
                    e,
                    i,
                ),
        },
{
    let ghost before = distant_statics@;
    let total: usize = distant_statics.len();
    let mut i: usize = 0;
    while i < total
        invariant
            i <= total,
            total == before.len(),
            before == old(distant_statics)@,
            opaque_map.wf(),
            alpha_map.wf(),
            distant_statics@.len() == total,
            forall|k: int| 0 <= k < total ==> (#[trigger] distant_statics@[k]).0 == before[k].0,
            forall|k: int|
                0 <= k < i ==> static_bound(
                    (#[trigger] before[k]).1,
                    distant_statics@[k].1,
                    opaque_map@,
                    alpha_map@,
                    *names,
                ),
            forall|k: int| i <= k < total ==> #[trigger] distant_statics@[k] == before[k],
        decreases total - i,
    {
        let ghost list = distant_statics@;
        let entry: &mut (String, DistantStatic) = &mut distant_statics[i];
        let outcome = bind_static(&mut entry.1, opaque_map, alpha_map, names);
        proof {
            let now = distant_statics@;
            assert forall|k: int| 0 <= k < total && k != i implies #[trigger] now[k] == list[k] by {}
        }
        match outcome {
            Ok(_) => {},
            Err(e) => {
                assert(statics_fail_at(
                    before,
                    distant_statics@,
                    opaque_map@,
                    alpha_map@,
                    *names,
                    e,
                    i as int,
                ));
                return Err(e);
            },
        }
        i = i + 1;
    }
    Ok(())
}

} // verus!
