//! Laws of texture usage: the limiting use of a texture is its least dense one.

use crate::atlas::apply_laws::stands_for_key;
use crate::atlas::sizing::analyze::{
    in_range, measured, statics_usage, usage_at, with_static_usage, with_subset_usage,
    with_triangle, with_triangles, TriangleOutcome,
};
use crate::atlas::sizing::probe::{
    dds_header, decoder_dimensions, dropped_before, format_of, u32_at, ImageKind, ProbedFormat,
};
use crate::atlas::sizing::usage::{limits_more, UsageView, UseRank};
use crate::atlas::sizing::{baseline_of, AtlasDomain, SourceTextureInfo, TextureAxisCaps};
use crate::byte_text::{ends_uncased, lower_char, lower_text};
use crate::bytes::from_low_bytes;
use crate::model::{DistantStatic, Subset, TextureNames};
use crate::picks::{lemma_pick_next, picks};
use crate::text::{lemma_text_order, lemma_text_transitive, text_le};
use vstd::prelude::*;

verus! {

/// The subset is counted for the texture: it is not animated, blends or not as the domain says, and
/// stands for the texture.
pub open spec fn counts_for(
    subset: Subset,
    names: TextureNames,
    domain: AtlasDomain,
    key: Seq<char>,
) -> bool {
    &&& !subset.has_uv_controller
    &&& subset.has_alpha == (domain is Alpha)
    &&& stands_for_key(subset.texture, names, key)
}

/// The triangle, of a static other than grass, uses the texture with this density, at the size that
/// the texture has under the caps.
pub open spec fn uses_with<
    M: Fn(usize, usize, u32, u32) -> TriangleOutcome,
    L: Fn(u32, u32, u32) -> (u32, u32),
>(
    meters: Seq<M>,
    limit: L,
    statics: Seq<(String, DistantStatic)>,
    names: TextureNames,
    source_info: Map<Seq<char>, SourceTextureInfo>,
    caps: TextureAxisCaps,
    domain: AtlasDomain,
    key: Seq<char>,
    at: (int, int, int),
    density: u32,
) -> bool {
    let subset = statics[at.0].1.subsets@[at.1];
    let corners = subset.triangles@[at.2];
    &&& !(statics[at.0].1.static_type is StaticGrass)
    &&& counts_for(subset, names, domain, key)
    &&& source_info.dom().contains(key)
    &&& baseline_of(limit, source_info[key], caps) matches Some(size) && measured(
        meters[at.0],
        at.1 as usize,
        at.2 as usize,
        size.0,
        size.1,
    ) == TriangleOutcome::Density(density)
    &&& corners@[0] < subset.vertices@.len()
    &&& corners@[1] < subset.vertices@.len()
    &&& corners@[2] < subset.vertices@.len()
}

/// The place of a triangle among the statics.
pub open spec fn is_place(statics: Seq<(String, DistantStatic)>, at: (int, int, int)) -> bool {
    &&& 0 <= at.0 < statics.len()
    &&& 0 <= at.1 < statics[at.0].1.subsets@.len()
    &&& 0 <= at.2 < statics[at.0].1.subsets@[at.1].triangles@.len()
}

/// One place comes before another.
pub open spec fn place_before(at: (int, int, int), end: (int, int, int)) -> bool {
    at.0 < end.0 || (at.0 == end.0 && (at.1 < end.1 || (at.1 == end.1 && at.2 < end.2)))
}

/// How a use ranks: by density, then by the name of the static, the subset and the triangle.
pub open spec fn rank_at(
    statics: Seq<(String, DistantStatic)>,
    at: (int, int, int),
    density: u32,
) -> UseRank {
    (density, statics[at.0].0@, at.1 as u32, at.2 as u32)
}

/// Of the uses before an end the limiting one is the least: it is one of them, and none limits more.
pub open spec fn limits_least<
    M: Fn(usize, usize, u32, u32) -> TriangleOutcome,
    L: Fn(u32, u32, u32) -> (u32, u32),
>(
    meters: Seq<M>,
    limit: L,
    statics: Seq<(String, DistantStatic)>,
    names: TextureNames,
    source_info: Map<Seq<char>, SourceTextureInfo>,
    caps: TextureAxisCaps,
    domain: AtlasDomain,
    key: Seq<char>,
    end: (int, int, int),
    limiting: Option<UseRank>,
) -> bool {
    &&& forall|at: (int, int, int), density: u32| #[trigger]
        uses_with(
            meters,
            limit,
            statics,
            names,
            source_info,
            caps,
            domain,
            key,
            at,
            density,
        ) && is_place(statics, at) && place_before(at, end) ==> limiting is Some && !limits_more(
            rank_at(statics, at, density),
            limiting->0,
        )
    &&& limiting is Some ==> exists|at: (int, int, int), density: u32| #[trigger]
        uses_with(
            meters,
            limit,
            statics,
            names,
            source_info,
            caps,
            domain,
            key,
            at,
            density,
        ) && is_place(statics, at) && place_before(at, end) && limiting->0 == rank_at(
            statics,
            at,
            density,
        )
}

proof fn lemma_rank_step(a: UseRank, b: UseRank, c: UseRank)
    requires
        !limits_more(a, b),
        limits_more(c, b),
    ensures
        !limits_more(a, c),
{
    lemma_text_order(a.1, b.1);
    lemma_text_order(a.1, c.1);
    lemma_text_order(b.1, c.1);
    if text_le(a.1, c.1) && text_le(c.1, b.1) {
        lemma_text_transitive(a.1, c.1, b.1);
    }
}

proof fn lemma_rank_itself(a: UseRank)
    ensures
        !limits_more(a, a),
{
    lemma_text_order(a.1, a.1);
}

proof fn lemma_triangle_limits<
    M: Fn(usize, usize, u32, u32) -> TriangleOutcome,
    L: Fn(u32, u32, u32) -> (u32, u32),
>(
    meters: Seq<M>,
    limit: L,
    statics: Seq<(String, DistantStatic)>,
    names: TextureNames,
    source_info: Map<Seq<char>, SourceTextureInfo>,
    caps: TextureAxisCaps,
    domain: AtlasDomain,
    key: Seq<char>,
    at: (int, int, int),
    usage: UsageView,
)
    requires
        is_place(statics, at),
        !(statics[at.0].1.static_type is StaticGrass),
        counts_for(statics[at.0].1.subsets@[at.1], names, domain, key),
        source_info.dom().contains(key),
        baseline_of(limit, source_info[key], caps) is Some,
        limits_least(
            meters,
            limit,
            statics,
            names,
            source_info,
            caps,
            domain,
            key,
            at,
            usage.limiting,
        ),
    ensures
        ({
            let subset = statics[at.0].1.subsets@[at.1];
            let size = baseline_of(limit, source_info[key], caps)->0;
            let next = with_triangle(
                usage,
                in_range(subset@.triangles[at.2], subset.vertices@.len() as int),
                measured(meters[at.0], at.1 as usize, at.2 as usize, size.0, size.1),
                statics[at.0].0@,
                at.1 as u32,
                at.2 as u32,
            );
            limits_least(
                meters,
                limit,
                statics,
                names,
                source_info,
                caps,
                domain,
                key,
                (at.0, at.1, at.2 + 1),
                next.limiting,
            )
        }),
{
    let subset = statics[at.0].1.subsets@[at.1];
    let size = baseline_of(limit, source_info[key], caps)->0;
    let inside = in_range(subset@.triangles[at.2], subset.vertices@.len() as int);
    let outcome = measured(meters[at.0], at.1 as usize, at.2 as usize, size.0, size.1);
    let next = with_triangle(
        usage,
        inside,
        outcome,
        statics[at.0].0@,
        at.1 as u32,
        at.2 as u32,
    );
    let after = (at.0, at.1, at.2 + 1);
    assert(subset@.triangles[at.2] == (
        subset.triangles@[at.2]@[0],
        subset.triangles@[at.2]@[1],
        subset.triangles@[at.2]@[2],
    ));
    assert forall|place: (int, int, int), density: u32| #[trigger]
        uses_with(
            meters,
            limit,
            statics,
            names,
            source_info,
            caps,
            domain,
            key,
            place,
            density,
        ) && is_place(statics, place) && place_before(place, after) implies next.limiting is Some
        && !limits_more(rank_at(statics, place, density), next.limiting->0) by {
        let rank = rank_at(statics, place, density);
        lemma_rank_itself(rank);
        if place == at {
            if usage.limiting is Some {
                if !limits_more(rank, usage.limiting->0) {
                    assert(next.limiting == usage.limiting);
                }
            }
        } else {
            assert(place_before(place, at));
            if next.limiting != usage.limiting {
                lemma_rank_step(rank, usage.limiting->0, next.limiting->0);
            }
        }
    }
    if next.limiting is Some {
        if next.limiting == usage.limiting {
            let (place, density) = choose|place: (int, int, int), density: u32| #[trigger]
                uses_with(
                    meters,
                    limit,
                    statics,
                    names,
                    source_info,
                    caps,
                    domain,
                    key,
                    place,
                    density,
                ) && is_place(statics, place) && place_before(place, at) && usage.limiting->0
                    == rank_at(statics, place, density);
            assert(place_before(place, after));
        } else {
            let density = outcome->Density_0;
            assert(uses_with(
                meters,
                limit,
                statics,
                names,
                source_info,
                caps,
                domain,
                key,
                at,
                density,
            ));
            assert(next.limiting->0 == rank_at(statics, at, density));
        }
    }
}

proof fn lemma_triangles_limit<
    M: Fn(usize, usize, u32, u32) -> TriangleOutcome,
    L: Fn(u32, u32, u32) -> (u32, u32),
>(
    meters: Seq<M>,
    limit: L,
    statics: Seq<(String, DistantStatic)>,
    names: TextureNames,
    source_info: Map<Seq<char>, SourceTextureInfo>,
    caps: TextureAxisCaps,
    domain: AtlasDomain,
    key: Seq<char>,
    i: int,
    s: int,
    end: int,
    usage: UsageView,
)
    requires
        0 <= i < statics.len(),
        0 <= s < statics[i].1.subsets@.len(),
        0 <= end <= statics[i].1.subsets@[s].triangles@.len(),
        !(statics[i].1.static_type is StaticGrass),
        counts_for(statics[i].1.subsets@[s], names, domain, key),
        source_info.dom().contains(key),
        baseline_of(limit, source_info[key], caps) is Some,
        limits_least(
            meters,
            limit,
            statics,
            names,
            source_info,
            caps,
            domain,
            key,
            (i, s, 0),
            usage.limiting,
        ),
    ensures
        ({
            let size = baseline_of(limit, source_info[key], caps)->0;
            limits_least(
                meters,
                limit,
                statics,
                names,
                source_info,
                caps,
                domain,
                key,
                (i, s, end),
                with_triangles(
                    usage,
                    meters[i],
                    statics[i].0@,
                    s,
                    statics[i].1.subsets@[s],
                    size.0,
                    size.1,
                    end,
                ).limiting,
            )
        }),
    decreases end,
{
    if end > 0 {
        let size = baseline_of(limit, source_info[key], caps)->0;
        lemma_triangles_limit(
            meters,
            limit,
            statics,
            names,
            source_info,
            caps,
            domain,
            key,
            i,
            s,
            end - 1,
            usage,
        );
        let before = with_triangles(
            usage,
            meters[i],
            statics[i].0@,
            s,
            statics[i].1.subsets@[s],
            size.0,
            size.1,
            end - 1,
        );
        lemma_triangle_limits(
            meters,
            limit,
            statics,
            names,
            source_info,
            caps,
            domain,
            key,
            (i, s, end - 1),
            before,
        );
    }
}

/// What limits at one end limits at another with no uses between.
proof fn lemma_end_moves<
    M: Fn(usize, usize, u32, u32) -> TriangleOutcome,
    L: Fn(u32, u32, u32) -> (u32, u32),
>(
    meters: Seq<M>,
    limit: L,
    statics: Seq<(String, DistantStatic)>,
    names: TextureNames,
    source_info: Map<Seq<char>, SourceTextureInfo>,
    caps: TextureAxisCaps,
    domain: AtlasDomain,
    key: Seq<char>,
    end: (int, int, int),
    later: (int, int, int),
    limiting: Option<UseRank>,
)
    requires
        limits_least(
            meters,
            limit,
            statics,
            names,
            source_info,
            caps,
            domain,
            key,
            end,
            limiting,
        ),
        forall|at: (int, int, int)| place_before(at, end) ==> #[trigger] place_before(at, later),
        forall|at: (int, int, int), density: u32|
            is_place(statics, at) && place_before(at, later) && !place_before(at, end)
                ==> !#[trigger] uses_with(
                meters,
                limit,
                statics,
                names,
                source_info,
                caps,
                domain,
                key,
                at,
                density,
            ),
    ensures
        limits_least(
            meters,
            limit,
            statics,
            names,
            source_info,
            caps,
            domain,
            key,
            later,
            limiting,
        ),
{
    if limiting is Some {
        let (at, density) = choose|at: (int, int, int), density: u32| #[trigger]
            uses_with(
                meters,
                limit,
                statics,
                names,
                source_info,
                caps,
                domain,
                key,
                at,
                density,
            ) && is_place(statics, at) && place_before(at, end) && limiting->0 == rank_at(
                statics,
                at,
                density,
            );
        assert(place_before(at, later));
    }
}

proof fn lemma_subsets_limit<
    M: Fn(usize, usize, u32, u32) -> TriangleOutcome,
    L: Fn(u32, u32, u32) -> (u32, u32),
>(
    meters: Seq<M>,
    limit: L,
    statics: Seq<(String, DistantStatic)>,
    names: TextureNames,
    source_info: Map<Seq<char>, SourceTextureInfo>,
    caps: TextureAxisCaps,
    domain: AtlasDomain,
    key: Seq<char>,
    i: int,
    end: int,
    map: Map<Seq<char>, UsageView>,
)
    requires
        0 <= i < statics.len(),
        0 <= end <= statics[i].1.subsets@.len(),
        !(statics[i].1.static_type is StaticGrass),
        limits_least(
            meters,
            limit,
            statics,
            names,
            source_info,
            caps,
            domain,
            key,
            (i, 0, 0),
            usage_at(map, key).limiting,
        ),
    ensures
        limits_least(
            meters,
            limit,
            statics,
            names,
            source_info,
            caps,
            domain,
            key,
            (i, end, 0),
            usage_at(
                with_static_usage(
                    map,
                    meters[i],
                    limit,
                    statics[i].0@,
                    statics[i].1.subsets@,
                    names,
                    source_info,
                    caps,
                    domain,
                    end,
                ),
                key,
            ).limiting,
        ),
    decreases end,
{
    if end > 0 {
        let s = end - 1;
        let subset = statics[i].1.subsets@[s];
        lemma_subsets_limit(
            meters,
            limit,
            statics,
            names,
            source_info,
            caps,
            domain,
            key,
            i,
            s,
            map,
        );
        let before = with_static_usage(
            map,
            meters[i],
            limit,
            statics[i].0@,
            statics[i].1.subsets@,
            names,
            source_info,
            caps,
            domain,
            s,
        );
        let after = with_subset_usage(
            before,
            meters[i],
            limit,
            statics[i].0@,
            s,
            subset,
            names,
            source_info,
            caps,
            domain,
        );
        let usage = usage_at(before, key);
        let known = source_info.dom().contains(key) && baseline_of(
            limit,
            source_info[key],
            caps,
        ) is Some;
        if counts_for(subset, names, domain, key) && known {
            let n = subset.triangles@.len() as int;
            lemma_triangles_limit(
                meters,
                limit,
                statics,
                names,
                source_info,
                caps,
                domain,
                key,
                i,
                s,
                n,
                usage,
            );
            lemma_end_moves(
                meters,
                limit,
                statics,
                names,
                source_info,
                caps,
                domain,
                key,
                (i, s, n),
                (i, end, 0),
                usage_at(after, key).limiting,
            );
        } else {
            assert(usage_at(after, key).limiting == usage.limiting);
            lemma_end_moves(
                meters,
                limit,
                statics,
                names,
                source_info,
                caps,
                domain,
                key,
                (i, s, 0),
                (i, end, 0),
                usage.limiting,
            );
        }
    }
}

/// The limiting use of a texture in a domain is the least dense of all its uses by triangles of the
/// statics, and of those alike the first by name, subset and triangle; there is none exactly where
/// no triangle uses the texture.
pub proof fn lemma_limiting_use_is_least<
    M: Fn(usize, usize, u32, u32) -> TriangleOutcome,
    L: Fn(u32, u32, u32) -> (u32, u32),
>(
    meters: Seq<M>,
    limit: L,
    statics: Seq<(String, DistantStatic)>,
    names: TextureNames,
    source_info: Map<Seq<char>, SourceTextureInfo>,
    caps: TextureAxisCaps,
    domain: AtlasDomain,
    key: Seq<char>,
    end: int,
)
    requires
        0 <= end <= statics.len(),
    ensures
        limits_least(
            meters,
            limit,
            statics,
            names,
            source_info,
            caps,
            domain,
            key,
            (end, 0, 0),
            usage_at(
                statics_usage(meters, limit, statics, names, source_info, caps, domain, end),
                key,
            ).limiting,
        ),
    decreases end,
{
    if end > 0 {
        let i = end - 1;
        lemma_limiting_use_is_least(
            meters,
            limit,
            statics,
            names,
            source_info,
            caps,
            domain,
            key,
            i,
        );
        let before = statics_usage(meters, limit, statics, names, source_info, caps, domain, i);
        let grass = statics[i].1.static_type is StaticGrass;
        let n = if grass {
            0
        } else {
            statics[i].1.subsets@.len() as int
        };
        if !grass {
            lemma_subsets_limit(
                meters,
                limit,
                statics,
                names,
                source_info,
                caps,
                domain,
                key,
                i,
                n,
                before,
            );
        }
        let after = statics_usage(meters, limit, statics, names, source_info, caps, domain, end);
        lemma_end_moves(
            meters,
            limit,
            statics,
            names,
            source_info,
            caps,
            domain,
            key,
            (i, n, 0),
            (end, 0, 0),
            usage_at(after, key).limiting,
        );
    }
}

/// A header of at least thirty-two bytes gives the height from its thirteenth byte on and the width
/// from its seventeenth, least byte first, and one mip at least.
pub proof fn lemma_dds_header_fields(bytes: Seq<u8>)
    ensures
        dds_header(bytes) is None <==> bytes.len() < 32,
        bytes.len() >= 32 ==> {
            let (width, height, mips) = dds_header(bytes)->0;
            &&& width == bytes[16] + 0x100 * bytes[17] + 0x1_0000 * bytes[18] + 0x100_0000
                * bytes[19]
            &&& height == bytes[12] + 0x100 * bytes[13] + 0x1_0000 * bytes[14] + 0x100_0000
                * bytes[15]
            &&& mips >= 1
            &&& bytes[10] / 2 % 2 == 0 ==> mips == 1
            &&& bytes[10] / 2 % 2 == 1 && bytes[28] + 0x100 * bytes[29] + 0x1_0000 * bytes[30]
                + 0x100_0000 * bytes[31] > 0 ==> mips == bytes[28] + 0x100 * bytes[29] + 0x1_0000
                * bytes[30] + 0x100_0000 * bytes[31]
        },
{
    if bytes.len() >= 32 {
        lemma_u32_at(bytes, 8);
        lemma_u32_at(bytes, 12);
        lemma_u32_at(bytes, 16);
        lemma_u32_at(bytes, 28);
        let low = bytes[8] + 0x100 * bytes[9];
        assert(u32_at(bytes, 8) == low + 0x1_0000 * bytes[10] + 0x100_0000 * bytes[11]);
        assert((u32_at(bytes, 8) / 0x0002_0000) % 2 == (bytes[10] as nat / 2) % 2);
    }
}

proof fn lemma_u32_at(bytes: Seq<u8>, offset: int)
    requires
        0 <= offset,
        offset + 4 <= bytes.len(),
    ensures
        u32_at(bytes, offset) == bytes[offset] + 0x100 * bytes[offset + 1] + 0x1_0000 * bytes[offset
            + 2] + 0x100_0000 * bytes[offset + 3],
{
    let part = bytes.subrange(offset, offset + 4);
    reveal_with_fuel(from_low_bytes, 5);
    assert(part.drop_first() =~= part.subrange(1, 4));
    assert(part.drop_first().drop_first() =~= part.subrange(2, 4));
    assert(part.drop_first().drop_first().drop_first() =~= part.subrange(3, 4));
    assert(part.drop_first().drop_first().drop_first().drop_first().len() == 0);
}

proof fn lemma_last_char(text: Seq<char>, suffix: Seq<char>)
    requires
        suffix.len() > 0,
        ends_uncased(text, suffix),
    ensures
        text.len() > 0,
        lower_char(text.last()) == lower_char(suffix.last()),
{
    let tail = text.skip(text.len() - suffix.len());
    assert(lower_text(tail)[suffix.len() - 1] == lower_text(suffix)[suffix.len() - 1]);
    assert(tail[suffix.len() - 1] == text.last());
}

/// The extension of a texture, in any case of letters, says how its bytes are read; others are not
/// read.
pub proof fn lemma_extension_decides(key: Seq<char>, bytes: Seq<u8>)
    ensures
        ends_uncased(key, ".dds"@) ==> format_of(key, bytes) is Dds,
        ends_uncased(key, ".bmp"@) ==> format_of(key, bytes) == ProbedFormat::Image(
            decoder_dimensions(ImageKind::Bmp, bytes),
        ),
        ends_uncased(key, ".tga"@) ==> format_of(key, bytes) == ProbedFormat::Image(
            decoder_dimensions(ImageKind::Tga, bytes),
        ),
        !ends_uncased(key, ".dds"@) && !ends_uncased(key, ".bmp"@) && !ends_uncased(key, ".tga"@)
            ==> format_of(key, bytes) is Unknown,
{
    reveal_strlit(".dds");
    reveal_strlit(".bmp");
    reveal_strlit(".tga");
    if ends_uncased(key, ".dds"@) {
        lemma_last_char(key, ".dds"@);
    }
    if ends_uncased(key, ".bmp"@) {
        lemma_last_char(key, ".bmp"@);
    }
    if ends_uncased(key, ".tga"@) {
        lemma_last_char(key, ".tga"@);
    }
}

/// The sources that are dropped are exactly those that could not be read.
pub proof fn lemma_dropped_counted(
    probed: Seq<Option<SourceTextureInfo>>,
    end: int,
) -> (list: Seq<int>)
    requires
        0 <= end,
    ensures
        picks(list, end, |i: int| !(probed[i] is Some)),
        dropped_before(probed, end) == list.len(),
    decreases end,
{
    if end <= 0 {
        Seq::empty()
    } else {
        let before = lemma_dropped_counted(probed, end - 1);
        lemma_pick_next(before, end - 1, |i: int| !(probed[i] is Some));
        if probed[end - 1] is None {
            before.push(end - 1)
        } else {
            before
        }
    }
}

} // verus!
