//! Laws of content: which textures share it, which are prepared, and what their fingerprints cover.

use crate::atlas::digest_laws::lemma_words_apart;
use crate::atlas::group::{
    keys_provided, lists_text, provider_in, provider_of, AtlasAliasRelation,
};
use crate::atlas::pack::{
    aliases_first, canonicals_before, decoded_prints, first_same, lemma_first_same,
    prepared_before, rect_in_image, rows_bytes, same_print, visible_bytes, DecodedTexture,
    PixelImage,
};
use crate::atlas::types::{Rect, TextureDedupeMode};
use crate::bytes::{lemma_low_bytes_len, low_bytes};
use crate::picks::{lemma_pick_next, picks};
use vstd::prelude::*;

verus! {

/// Position `i` is the first with its fingerprint.
pub open spec fn is_first(prints: Seq<(u64, [u8; 32])>, i: int) -> bool {
    forall|j: int|
        0 <= j < i ==> (#[trigger] prints[j]).0 != prints[i].0 || prints[j].1@ != prints[i].1@
}

proof fn lemma_is_first(prints: Seq<(u64, [u8; 32])>, i: int)
    requires
        0 <= i < prints.len(),
    ensures
        first_same(prints, i) == i <==> is_first(prints, i),
        0 <= first_same(prints, i) <= i,
        is_first(prints, first_same(prints, i)),
        prints[first_same(prints, i)].0 == prints[i].0,
        prints[first_same(prints, i)].1@ == prints[i].1@,
{
    lemma_first_same(prints, i);
    let f = first_same(prints, i);
    assert(same_print(prints[f], prints[i]));
    assert forall|j: int| 0 <= j < f implies (#[trigger] prints[j]).0 != prints[f].0
        || prints[j].1@ != prints[f].1@ by {
        assert(!same_print(prints[j], prints[i]));
    }
    if is_first(prints, i) && f < i {
        assert(prints[f].0 != prints[i].0 || prints[f].1@ != prints[i].1@);
    }
}

/// The keys that stand for others are exactly the first of each content, in order.
pub proof fn lemma_canonical_keys(keys: Seq<String>, prints: Seq<(u64, [u8; 32])>, end: int) -> (list:
    Seq<int>)
    requires
        keys.len() == prints.len(),
        0 <= end <= keys.len(),
    ensures
        picks(list, end, |i: int| is_first(prints, i)),
        canonicals_before(keys, prints, end) == list.map_values(|i: int| keys[i]),
    decreases end,
{
    if end <= 0 {
        assert(canonicals_before(keys, prints, end) =~= Seq::<int>::empty().map_values(
            |i: int| keys[i],
        ));
        Seq::empty()
    } else {
        let before = lemma_canonical_keys(keys, prints, end - 1);
        lemma_pick_next(before, end - 1, |i: int| is_first(prints, i));
        lemma_is_first(prints, end - 1);
        let list = if is_first(prints, end - 1) {
            before.push(end - 1)
        } else {
            before
        };
        assert(canonicals_before(keys, prints, end) =~= list.map_values(|i: int| keys[i]));
        list
    }
}

/// Two keys resolve to the same key exactly where their contents have the same fingerprint, and each
/// resolves to the first of its content.
pub proof fn lemma_aliases_by_content(
    keys: Seq<String>,
    prints: Seq<(u64, [u8; 32])>,
    aliases: Map<Seq<char>, String>,
    i: int,
    j: int,
)
    requires
        keys.len() == prints.len(),
        forall|a: int, b: int|
            0 <= a < b < keys.len() ==> (#[trigger] keys[a])@ != (#[trigger] keys[b])@,
        aliases_first(keys, prints, aliases),
        0 <= i < keys.len(),
        0 <= j < keys.len(),
    ensures
        aliases.dom().contains(keys[i]@),
        exists|f: int|
            0 <= f <= i && #[trigger] is_first(prints, f) && aliases[keys[i]@]@ == keys[f]@
                && prints[f].0 == prints[i].0 && prints[f].1@ == prints[i].1@,
        aliases[keys[i]@]@ == aliases[keys[j]@]@ <==> prints[i].0 == prints[j].0 && prints[i].1@
            == prints[j].1@,
{
    lemma_is_first(prints, i);
    lemma_is_first(prints, j);
    let f = first_same(prints, i);
    let g = first_same(prints, j);
    assert(lists_text(keys, keys[i]@));
    assert(aliases[keys[i]@] == keys[f]);
    assert(aliases[keys[j]@] == keys[g]);
    if prints[i].0 == prints[j].0 && prints[i].1@ == prints[j].1@ {
        if f < g {
            assert(prints[f].0 != prints[g].0 || prints[f].1@ != prints[g].1@);
        }
        if g < f {
            assert(prints[g].0 != prints[f].0 || prints[g].1@ != prints[f].1@);
        }
    }
}

/// Without deduplication every texture is prepared, and with it exactly the first of each content,
/// in order.
pub proof fn lemma_prepared_textures(
    inputs: Seq<DecodedTexture>,
    dedupe_mode: TextureDedupeMode,
    end: int,
) -> (list: Seq<int>)
    requires
        0 <= end <= inputs.len(),
    ensures
        picks(
            list,
            end,
            |i: int|
                dedupe_mode is Off || forall|j: int|
                    0 <= j < i ==> (#[trigger] inputs[j]).fingerprint@ != inputs[i].fingerprint@,
        ),
        prepared_before(inputs, dedupe_mode, end) == list.map_values(|i: int| inputs[i]),
    decreases end,
{
    let condition = |i: int|
        dedupe_mode is Off || forall|j: int|
            0 <= j < i ==> (#[trigger] inputs[j]).fingerprint@ != inputs[i].fingerprint@;
    if end <= 0 {
        assert(prepared_before(inputs, dedupe_mode, end) =~= Seq::<int>::empty().map_values(
            |i: int| inputs[i],
        ));
        Seq::empty()
    } else {
        let before = lemma_prepared_textures(inputs, dedupe_mode, end - 1);
        let i = end - 1;
        lemma_pick_next(before, i, condition);
        let prints = decoded_prints(inputs);
        lemma_is_first(prints, i);
        assert(is_first(prints, i) <==> forall|j: int|
            0 <= j < i ==> (#[trigger] inputs[j]).fingerprint@ != inputs[i].fingerprint@) by {
            if is_first(prints, i) {
                assert forall|j: int| 0 <= j < i implies (#[trigger] inputs[j]).fingerprint@
                    != inputs[i].fingerprint@ by {
                    assert(prints[j].1@ != prints[i].1@);
                }
            }
            if forall|j: int|
                0 <= j < i ==> (#[trigger] inputs[j]).fingerprint@ != inputs[i].fingerprint@ {
                assert forall|j: int| 0 <= j < i implies (#[trigger] prints[j]).0 != prints[i].0
                    || prints[j].1@ != prints[i].1@ by {
                    assert(inputs[j].fingerprint@ != inputs[i].fingerprint@);
                }
            }
        }
        let list = if condition(i) {
            before.push(i)
        } else {
            before
        };
        assert(prepared_before(inputs, dedupe_mode, end) =~= list.map_values(|i: int| inputs[i]));
        list
    }
}

/// The relation leads from one key to the other.
pub open spec fn leads_from(
    relation: AtlasAliasRelation,
    key: Seq<char>,
    other: Seq<char>,
) -> bool {
    match relation {
        AtlasAliasRelation::Identity => other == key,
        AtlasAliasRelation::Complete(aliases) => aliases@.dom().contains(key) && aliases@[key]@
            == other,
    }
}

/// The keys of a group are exactly those that lead, through both relations, to its provider, in
/// order.
pub proof fn lemma_keys_of_group(
    keys: Seq<String>,
    tier0: AtlasAliasRelation,
    tier1: AtlasAliasRelation,
    provider: Seq<char>,
    end: int,
) -> (list: Seq<int>)
    requires
        0 <= end <= keys.len(),
    ensures
        picks(
            list,
            end,
            |i: int|
                exists|middle: Seq<char>| #[trigger]
                    leads_from(tier0, keys[i]@, middle) && leads_from(tier1, middle, provider),
        ),
        keys_provided(keys.take(end), tier0, tier1, provider) == list.map_values(
            |i: int| keys[i],
        ),
    decreases end,
{
    let condition = |i: int|
        exists|middle: Seq<char>| #[trigger]
            leads_from(tier0, keys[i]@, middle) && leads_from(tier1, middle, provider);
    if end <= 0 {
        assert(keys_provided(keys.take(end), tier0, tier1, provider) =~= Seq::<
            int,
        >::empty().map_values(|i: int| keys[i]));
        Seq::empty()
    } else {
        let before = lemma_keys_of_group(keys, tier0, tier1, provider, end - 1);
        let i = end - 1;
        lemma_pick_next(before, i, condition);
        assert(keys.take(end).drop_last() =~= keys.take(i));
        let resolved = provider_of(tier0, tier1, keys[i]@);
        if resolved == Some(provider) {
            let middle = provider_in(tier0, keys[i]@)->0;
            assert(leads_from(tier0, keys[i]@, middle) && leads_from(tier1, middle, provider));
        }
        let list = if condition(i) {
            before.push(i)
        } else {
            before
        };
        assert(keys_provided(keys.take(end), tier0, tier1, provider) =~= list.map_values(
            |i: int| keys[i],
        ));
        list
    }
}

proof fn lemma_row_bytes(image: PixelImage, source: Rect, rows: int)
    requires
        image.wf(),
        rect_in_image(image, source),
        0 <= rows <= source.h,
    ensures
        rows_bytes(image, source, rows).len() == rows * source.w * 4,
        forall|r: int, b: int|
            0 <= r < rows && 0 <= b < source.w * 4 ==> #[trigger] byte_of_row(
                image,
                source,
                rows,
                r,
                b,
            ),
    decreases rows,
{
    if rows > 0 {
        let r = rows - 1;
        lemma_row_bytes(image, source, r);
        let before = rows_bytes(image, source, r);
        let start = (source.y + r) * image.width * 4 + source.x * 4;
        let w = image.width as int;
        let h = image.height as int;
        let y = source.y + r;
        assert(y * w * 4 + w * 4 <= w * h * 4) by (nonlinear_arith)
            requires
                0 <= y,
                y + 1 <= h,
                0 <= w,
        ;
        assert(y * w >= 0) by (nonlinear_arith)
            requires
                0 <= y,
                0 <= w,
        ;
        let row = image.pixels@.subrange(start, start + source.w * 4);
        assert(rows_bytes(image, source, rows) == before + row);
        assert(rows * source.w * 4 == r * source.w * 4 + source.w * 4) by (nonlinear_arith)
            requires
                rows == r + 1,
        ;
        assert forall|k: int, b: int| 0 <= k < rows && 0 <= b < source.w * 4 implies #[trigger] byte_of_row(
            image,
            source,
            rows,
            k,
            b,
        ) by {
            if k < r {
                assert(byte_of_row(image, source, r, k, b));
                assert(k * source.w * 4 + b < r * source.w * 4) by (nonlinear_arith)
                    requires
                        0 <= k,
                        k + 1 <= r,
                        0 <= b < source.w * 4,
                ;
                assert(0 <= k * source.w * 4 + b) by (nonlinear_arith)
                    requires
                        0 <= k,
                        0 <= b,
                        0 <= source.w,
                ;
            } else {
                assert((before + row)[before.len() + b] == row[b]);
            }
        }
    } else {
        assert(rows * source.w * 4 == 0) by (nonlinear_arith)
            requires
                rows == 0,
        ;
    }
}

/// Byte `b` of row `r` of the rectangle stands at its place among the rows.
pub open spec fn byte_of_row(image: PixelImage, source: Rect, rows: int, r: int, b: int) -> bool {
    rows_bytes(image, source, rows)[r * source.w * 4 + b] == image.pixels@[(source.y + r)
        * image.width * 4 + source.x * 4 + b]
}

/// Visible parts with the same fingerprinted bytes have the same size and show the same, byte by
/// byte.
pub proof fn lemma_visible_parts_told_apart(
    a: PixelImage,
    b: PixelImage,
    s: Rect,
    t: Rect,
    r: int,
    k: int,
)
    requires
        a.wf(),
        b.wf(),
        rect_in_image(a, s),
        rect_in_image(b, t),
        visible_bytes(a, s) == visible_bytes(b, t),
        0 <= r < s.h,
        0 <= k < s.w * 4,
    ensures
        s.w == t.w,
        s.h == t.h,
        a.pixels@[(s.y + r) * a.width * 4 + s.x * 4 + k] == b.pixels@[(t.y + r) * b.width * 4 + t.x
            * 4 + k],
{
    let x = visible_bytes(a, s);
    let y = visible_bytes(b, t);
    let sw = low_bytes(s.w as nat, 4);
    let sh = low_bytes(s.h as nat, 4);
    let tw = low_bytes(t.w as nat, 4);
    let th = low_bytes(t.h as nat, 4);
    lemma_low_bytes_len(s.w as nat, 4);
    lemma_low_bytes_len(s.h as nat, 4);
    lemma_low_bytes_len(t.w as nat, 4);
    lemma_low_bytes_len(t.h as nat, 4);
    assert(x.subrange(0, 4) =~= sw && y.subrange(0, 4) =~= tw);
    assert(x.subrange(4, 8) =~= sh && y.subrange(4, 8) =~= th);
    lemma_words_apart(s.w, t.w);
    lemma_words_apart(s.h, t.h);
    lemma_row_bytes(a, s, s.h as int);
    lemma_row_bytes(b, t, t.h as int);
    let p = rows_bytes(a, s, s.h as int);
    let q = rows_bytes(b, t, t.h as int);
    assert(p =~= x.subrange(8, x.len() as int));
    assert(q =~= y.subrange(8, y.len() as int));
    assert(byte_of_row(a, s, s.h as int, r, k));
    assert(byte_of_row(b, t, t.h as int, r, k));
}

} // verus!
