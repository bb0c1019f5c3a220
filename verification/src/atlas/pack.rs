//! Preparing decoded textures for packing.

use crate::atlas::group::{lists_text, AtlasAliasRelation};
use crate::atlas::laws::item_sound;
use crate::atlas::types::{digest_eq, LayoutItem, Rect, TextureDedupeMode};
use crate::bytes::{blake3_hash, blake3_of, low_bytes, push_u32};
use crate::list::reversed;
use crate::sort::{distinct_ranks, lemma_ranked_strict, sort_ranked, strictly_ranked, Ranked};
use crate::text::{lemma_text_order, lemma_text_transitive, str_eq, str_le, text_le};
use crate::text_map::TextMap;
use vstd::prelude::*;

verus! {

// ---------------------------------------------------------------------------------------------
// Aliases
// ---------------------------------------------------------------------------------------------

/// Two fingerprints are the same.
pub open spec fn same_print(a: (u64, [u8; 32]), b: (u64, [u8; 32])) -> bool {
    a.0 == b.0 && a.1@ == b.1@
}

/// First position from `j` on whose fingerprint is that of position `i`.
pub open spec fn first_from(prints: Seq<(u64, [u8; 32])>, i: int, j: int) -> int
    decreases i - j,
{
    if j >= i {
        i
    } else if same_print(prints[j], prints[i]) {
        j
    } else {
        first_from(prints, i, j + 1)
    }
}

/// First position whose fingerprint is that of position `i`.
pub open spec fn first_same(prints: Seq<(u64, [u8; 32])>, i: int) -> int {
    first_from(prints, i, 0)
}

proof fn lemma_first_from(prints: Seq<(u64, [u8; 32])>, i: int, j: int)
    requires
        0 <= j <= i,
    ensures
        j <= first_from(prints, i, j) <= i,
        same_print(prints[first_from(prints, i, j)], prints[i]),
        forall|k: int|
            j <= k < first_from(prints, i, j) ==> !same_print(#[trigger] prints[k], prints[i]),
    decreases i - j,
{
    if j < i && !same_print(prints[j], prints[i]) {
        lemma_first_from(prints, i, j + 1);
        assert forall|k: int| j <= k < first_from(prints, i, j) implies !same_print(
            #[trigger] prints[k],
            prints[i],
        ) by {}
    }
}

/// The first of several identical fingerprints is its own first.
pub proof fn lemma_first_same(prints: Seq<(u64, [u8; 32])>, i: int)
    requires
        0 <= i,
    ensures
        0 <= first_same(prints, i) <= i,
        same_print(prints[first_same(prints, i)], prints[i]),
        first_same(prints, first_same(prints, i)) == first_same(prints, i),
        forall|k: int|
            0 <= k < first_same(prints, i) ==> !same_print(#[trigger] prints[k], prints[i]),
{
    lemma_first_from(prints, i, 0);
    let f = first_same(prints, i);
    lemma_first_from(prints, f, 0);
    let e = first_same(prints, f);
    if e < f {
        assert(same_print(prints[e], prints[f]));
        assert(!same_print(prints[e], prints[i]));
    }
}

/// The keys before `end` that come first with their fingerprint, in order.
pub open spec fn canonicals_before(
    keys: Seq<String>,
    prints: Seq<(u64, [u8; 32])>,
    end: int,
) -> Seq<String>
    decreases end,
{
    if end <= 0 {
        Seq::empty()
    } else if first_same(prints, end - 1) == end - 1 {
        canonicals_before(keys, prints, end - 1).push(keys[end - 1])
    } else {
        canonicals_before(keys, prints, end - 1)
    }
}

/// Every key resolves to the first key with the same fingerprint, and nothing else resolves.
pub open spec fn aliases_first(
    keys: Seq<String>,
    prints: Seq<(u64, [u8; 32])>,
    aliases: Map<Seq<char>, String>,
) -> bool {
    &&& forall|key: Seq<char>| #[trigger] aliases.dom().contains(key) <==> lists_text(keys, key)
    &&& forall|i: int|
        0 <= i < keys.len() ==> aliases[(#[trigger] keys[i])@] == keys[first_same(prints, i)]
}

/// No key occurs twice.
pub open spec fn keys_distinct(keys: Seq<String>) -> bool {
    forall|i: int, j: int|
        0 <= i < j < keys.len() ==> (#[trigger] keys[i])@ != (#[trigger] keys[j])@
}

/// Groups keys by identical fingerprint; the first key of each group stands for it.
pub fn build_alias_map(keys: &[String], prints: &[(u64, [u8; 32])]) -> (r: (
    Vec<String>,
    TextMap<String>,
))
    requires
        keys@.len() == prints@.len(),
        keys_distinct(keys@),
    ensures
        r.0@ == canonicals_before(keys@, prints@, keys@.len() as int),
        r.1.wf(),
        aliases_first(keys@, prints@, r.1@),
{
    let mut canonicals: Vec<String> = Vec::new();
    let mut aliases: TextMap<String> = TextMap::new();
    let mut i: usize = 0;
    while i < keys.len()
        invariant
            i <= keys@.len(),
            keys@.len() == prints@.len(),
            keys_distinct(keys@),
            canonicals@ == canonicals_before(keys@, prints@, i as int),
            aliases.wf(),
            forall|key: Seq<char>| #[trigger]
                aliases@.dom().contains(key) <==> lists_text(keys@.take(i as int), key),
            forall|k: int|
                0 <= k < i ==> aliases@[(#[trigger] keys@[k])@] == keys@[first_same(prints@, k)],
        decreases keys@.len() - i,
    {
        let mut j: usize = 0;
        while j < i && !print_eq(&prints[j], &prints[i])
            invariant
                j <= i < keys@.len(),
                keys@.len() == prints@.len(),
                first_same(prints@, i as int) == first_from(prints@, i as int, j as int),
            decreases i - j,
        {
            j = j + 1;
        }
        proof {
            assert(first_same(prints@, i as int) == j);
        }
        if j == i {
            canonicals.push(keys[i].clone());
        }
        let ghost before = aliases@;
        aliases.insert(keys[i].clone(), keys[j].clone());
        proof {
            let seen = keys@.take(i as int);
            let now = keys@.take(i + 1);
            assert(now =~= seen.push(keys@[i as int]));
            assert forall|key: Seq<char>| #[trigger]
                aliases@.dom().contains(key) <==> lists_text(now, key) by {
                assert(before.dom().contains(key) <==> lists_text(seen, key));
                if lists_text(seen, key) {
                    let k = choose|k: int| 0 <= k < seen.len() && (#[trigger] seen[k])@ == key;
                    assert(now[k]@ == key);
                }
                if key == keys@[i as int]@ {
                    assert(now[i as int]@ == key);
                }
                if lists_text(now, key) && key != keys@[i as int]@ {
                    let k = choose|k: int| 0 <= k < now.len() && (#[trigger] now[k])@ == key;
                    assert(seen[k]@ == key);
                }
            }
        }
        i = i + 1;
    }
    assert(keys@.take(i as int) =~= keys@);
    (canonicals, aliases)
}

fn print_eq(a: &(u64, [u8; 32]), b: &(u64, [u8; 32])) -> (r: bool)
    ensures
        r == same_print(*a, *b),
{
    a.0 == b.0 && digest_eq(&a.1, &b.1)
}

// ---------------------------------------------------------------------------------------------
// Pixels
// ---------------------------------------------------------------------------------------------

/// A decoded image, row by row with four bytes per texel.
#[derive(Debug)]
pub struct PixelImage {
    pub width: u32,
    pub height: u32,
    pub pixels: Vec<u8>,
}

impl PixelImage {
    /// There are four bytes for every texel.
    pub open spec fn wf(&self) -> bool {
        self.pixels@.len() == self.width * self.height * 4
    }
}

/// The image of a texture, or the one texel that stands in for a texture that cannot be read: one
/// unreadable texture must not end a whole run.
pub fn decoded_or_placeholder(image: Option<PixelImage>) -> (r: PixelImage)
    ensures
        image matches Some(image) ==> r == image,
        image is None ==> r.width == 1 && r.height == 1 && r.pixels@ == seq![255u8, 0, 255, 255],
{
    match image {
        Some(image) => image,
        None => {
            let mut pixels: Vec<u8> = Vec::new();
            pixels.push(255);
            pixels.push(0);
            pixels.push(255);
            pixels.push(255);
            assert(pixels@ =~= seq![255u8, 0, 255, 255]);
            PixelImage { width: 1, height: 1, pixels }
        },
    }
}

/// Two images show the same.
pub open spec fn same_image(a: PixelImage, b: PixelImage) -> bool {
    a.width == b.width && a.height == b.height && a.pixels@ == b.pixels@
}

/// The texel's opacity is above the threshold.
pub open spec fn is_visible(
    width: u32,
    pixels: Seq<u8>,
    threshold: u8,
    x: int,
    y: int,
) -> bool {
    pixels[(y * width + x) * 4 + 3] > threshold
}

/// Some texel of the image is visible.
pub open spec fn has_visible(width: u32, height: u32, pixels: Seq<u8>, threshold: u8) -> bool {
    exists|x: int, y: int|
        0 <= x < width && 0 <= y < height && #[trigger] is_visible(width, pixels, threshold, x, y)
}

/// Some texel in the column is visible.
pub open spec fn column_visible(
    width: u32,
    height: u32,
    pixels: Seq<u8>,
    threshold: u8,
    x: int,
) -> bool {
    exists|y: int| 0 <= y < height && #[trigger] is_visible(width, pixels, threshold, x, y)
}

/// Some texel in the row is visible.
pub open spec fn row_visible(width: u32, pixels: Seq<u8>, threshold: u8, y: int) -> bool {
    exists|x: int| 0 <= x < width && #[trigger] is_visible(width, pixels, threshold, x, y)
}

/// `bounds` is the smallest rectangle that holds every visible texel.
pub open spec fn bounds_visible(
    width: u32,
    height: u32,
    pixels: Seq<u8>,
    threshold: u8,
    bounds: Rect,
) -> bool {
    &&& bounds.w > 0 && bounds.h > 0
    &&& bounds.x + bounds.w <= width && bounds.y + bounds.h <= height
    &&& forall|x: int, y: int|
        0 <= x < width && 0 <= y < height && #[trigger] is_visible(width, pixels, threshold, x, y)
            ==> bounds.x <= x < bounds.x + bounds.w && bounds.y <= y < bounds.y + bounds.h
    &&& column_visible(width, height, pixels, threshold, bounds.x as int)
    &&& column_visible(width, height, pixels, threshold, bounds.x + bounds.w - 1)
    &&& row_visible(width, pixels, threshold, bounds.y as int)
    &&& row_visible(width, pixels, threshold, bounds.y + bounds.h - 1)
}

/// `tex_packer_core::compute_trim_rect` on the image with these pixels.
///
/// Where some texel's opacity is above the threshold, the second value is `true` and the rectangle
/// is the smallest one that holds every such texel; otherwise it is the whole image. The pixels are
/// handed back as they came.
#[verifier::external_body]
fn trim_bounds(width: u32, height: u32, pixels: Vec<u8>, threshold: u8) -> (r: (
    Vec<u8>,
    bool,
    Rect,
))
    requires
        pixels@.len() == width * height * 4,
    ensures
        r.0@ == pixels@,
        r.1 == has_visible(width, height, pixels@, threshold),
        r.1 ==> bounds_visible(width, height, pixels@, threshold, r.2),
        !r.1 ==> r.2 == (Rect { x: 0, y: 0, w: width, h: height }),
{
    let image = image::RgbaImage::from_raw(width, height, pixels).unwrap();
    let (trimmed, source) = tex_packer_core::compute_trim_rect(&image, threshold);
    let bounds = Rect { x: source.x, y: source.y, w: source.w, h: source.h };
    (image.into_raw(), trimmed.is_some(), bounds)
}

/// Offset of the first byte of row `y` of the rectangle.
pub open spec fn row_start(image: PixelImage, source: Rect, row: int) -> int {
    (source.y + row) * image.width * 4 + source.x * 4
}

/// Bytes of the first `rows` rows of the rectangle.
pub open spec fn rows_bytes(image: PixelImage, source: Rect, rows: int) -> Seq<u8>
    decreases rows,
{
    if rows <= 0 {
        Seq::empty()
    } else {
        let start = row_start(image, source, rows - 1);
        rows_bytes(image, source, rows - 1) + image.pixels@.subrange(start, start + source.w * 4)
    }
}

/// The bytes that identify the visible content: size, then rows.
pub open spec fn visible_bytes(image: PixelImage, source: Rect) -> Seq<u8> {
    low_bytes(source.w as nat, 4) + low_bytes(source.h as nat, 4) + rows_bytes(
        image,
        source,
        source.h as int,
    )
}

/// The rectangle lies within the image.
pub open spec fn rect_in_image(image: PixelImage, source: Rect) -> bool {
    source.x + source.w <= image.width && source.y + source.h <= image.height
}

proof fn lemma_row_in_image(image: PixelImage, source: Rect, row: int)
    requires
        image.wf(),
        rect_in_image(image, source),
        0 <= row < source.h,
    ensures
        0 <= row_start(image, source, row),
        row_start(image, source, row) + source.w * 4 <= image.pixels@.len(),
        (source.y + row) * image.width * 4 <= image.pixels@.len(),
{
    let w = image.width as int;
    let h = image.height as int;
    let y = source.y + row;
    assert(y * w * 4 + w * 4 <= w * h * 4) by (nonlinear_arith)
        requires
            0 <= y,
            y + 1 <= h,
            0 <= w,
    ;
    assert(y * w >= 0) by (nonlinear_arith)
        requires
            0 <= y,
            0 <= w,
    ;
}

/// Fingerprints exactly the visible rectangle that will be composited into an atlas slot.
pub fn visible_content_fingerprint(image: &PixelImage, source: Rect) -> (digest: [u8; 32])
    requires
        image.wf(),
        rect_in_image(*image, source),
    ensures
        digest@ == blake3_of(visible_bytes(*image, source)),
{
    let mut out: Vec<u8> = Vec::new();
    push_u32(&mut out, source.w);
    push_u32(&mut out, source.h);
    let ghost head = low_bytes(source.w as nat, 4) + low_bytes(source.h as nat, 4);
    assert(out@ =~= head);
    let mut row: u32 = 0;
    assert(out@ =~= head + rows_bytes(*image, source, 0));
    while row < source.h
        invariant
            row <= source.h,
            image.wf(),
            rect_in_image(*image, source),
            out@ == head + rows_bytes(*image, source, row as int),
        decreases source.h - row,
    {
        proof {
            lemma_row_in_image(*image, source, row as int);
            assert(image.pixels@.len() == image.pixels.len());
            assert((source.y + row) * image.width <= (source.y + row) * image.width * 4)
                by (nonlinear_arith)
                requires
                    0 <= (source.y + row) * image.width,
            ;
            assert(0 <= (source.y + row) * image.width) by (nonlinear_arith)
                requires
                    0 <= source.y + row,
                    0 <= image.width,
            ;
        }
        let line: usize = (source.y + row) as usize;
        let start: usize = line * image.width as usize * 4 + source.x as usize * 4;
        let end: usize = start + source.w as usize * 4;
        let ghost before = out@;
        push_part(&mut out, &image.pixels, start, end);
        proof {
            assert(start == row_start(*image, source, row as int));
            assert(out@ =~= head + rows_bytes(*image, source, row + 1));
        }
        row = row + 1;
    }
    blake3_hash(&out)
}

fn push_part(out: &mut Vec<u8>, bytes: &[u8], start: usize, end: usize)
    requires
        start <= end <= bytes@.len(),
    ensures
        final(out)@ == old(out)@ + bytes@.subrange(start as int, end as int),
{
    let mut i: usize = start;
    assert(out@ =~= old(out)@ + bytes@.subrange(start as int, start as int));
    while i < end
        invariant
            start <= i <= end <= bytes@.len(),
            out@ == old(out)@ + bytes@.subrange(start as int, i as int),
        decreases end - i,
    {
        out.push(bytes[i]);
        assert(out@ =~= old(out)@ + bytes@.subrange(start as int, i + 1));
        i = i + 1;
    }
}

// ---------------------------------------------------------------------------------------------
// Prepared inputs
// ---------------------------------------------------------------------------------------------

/// A decoded source texture with the fingerprint of its decoded content.
#[derive(Debug)]
pub struct DecodedTexture {
    pub key: String,
    pub image: PixelImage,
    pub fingerprint: [u8; 32],
}

/// Decoded textures sort by key.
impl Ranked for DecodedTexture {
    open spec fn ranks_le(self, other: Self) -> bool {
        text_le(self.key@, other.key@)
    }

    proof fn rank_total(a: Self, b: Self) {
        lemma_text_order(a.key@, b.key@);
    }

    proof fn rank_transitive(a: Self, b: Self, c: Self) {
        lemma_text_transitive(a.key@, b.key@, c.key@);
    }

    fn rank_le(&self, other: &Self) -> (r: bool) {
        str_le(self.key.as_str(), other.key.as_str())
    }
}

/// Textures ready for packing.
pub struct PreparedAtlasInputs {
    pub layout_items: Vec<LayoutItem>,
    pub images: TextMap<PixelImage>,
    /// Visible prepared fingerprint for each decoded canonical key.
    pub content_fingerprints: TextMap<[u8; 32]>,
    pub prepared_source_bytes: u64,
    pub decoded_texture_count: usize,
}

/// The decoded fingerprints of the textures.
pub open spec fn decoded_prints(inputs: Seq<DecodedTexture>) -> Seq<(u64, [u8; 32])> {
    inputs.map_values(|input: DecodedTexture| (0u64, input.fingerprint))
}

/// The keys of the textures.
pub open spec fn decoded_keys(inputs: Seq<DecodedTexture>) -> Seq<String> {
    inputs.map_values(|input: DecodedTexture| input.key)
}

/// Texture `i` is prepared: without deduplication each one, else the first of its content.
pub open spec fn is_prepared(
    inputs: Seq<DecodedTexture>,
    dedupe_mode: TextureDedupeMode,
    i: int,
) -> bool {
    dedupe_mode == TextureDedupeMode::Off || first_same(decoded_prints(inputs), i) == i
}

/// The prepared textures before `end`, in order.
pub open spec fn prepared_before(
    inputs: Seq<DecodedTexture>,
    dedupe_mode: TextureDedupeMode,
    end: int,
) -> Seq<DecodedTexture>
    decreases end,
{
    if end <= 0 {
        Seq::empty()
    } else if is_prepared(inputs, dedupe_mode, end - 1) {
        prepared_before(inputs, dedupe_mode, end - 1).push(inputs[end - 1])
    } else {
        prepared_before(inputs, dedupe_mode, end - 1)
    }
}

/// The item is the visible part of the image, or all of it where nothing is visible.
pub open spec fn is_item_of(image: PixelImage, key: Seq<char>, item: LayoutItem) -> bool {
    &&& item.key@ == key
    &&& item.source is Some
    &&& item.source_size == Some((image.width, image.height))
    &&& item.w == item.source->0.w
    &&& item.h == item.source->0.h
    &&& item.trimmed == has_visible(image.width, image.height, image.pixels@, 0)
    &&& item.trimmed ==> bounds_visible(
        image.width,
        image.height,
        image.pixels@,
        0,
        item.source->0,
    )
    &&& !item.trimmed ==> item.source->0 == (Rect { x: 0, y: 0, w: image.width, h: image.height })
}

/// Bytes of the prepared images, up to the largest representable count.
pub open spec fn prepared_bytes(textures: Seq<DecodedTexture>) -> int
    decreases textures.len(),
{
    if textures.len() == 0 {
        0
    } else {
        let sum = prepared_bytes(textures.drop_last()) + textures.last().image.pixels@.len();
        if sum > u64::MAX {
            u64::MAX as int
        } else {
            sum
        }
    }
}

/// Texture `i` of the prepared ones has its item, image, and content fingerprint.
pub open spec fn prepares(prepared: PreparedAtlasInputs, texture: DecodedTexture, i: int) -> bool {
    let key = texture.key@;
    let item = prepared.layout_items@[i];
    &&& is_item_of(texture.image, key, item)
    &&& prepared.images@.dom().contains(key)
    &&& same_image(prepared.images@[key], texture.image)
    &&& prepared.content_fingerprints@.dom().contains(key)
    &&& prepared.content_fingerprints@[key]@ == blake3_of(
        visible_bytes(texture.image, item.source->0),
    )
}

/// `prepared` holds exactly the listed textures.
pub open spec fn prepares_all(
    prepared: PreparedAtlasInputs,
    textures: Seq<DecodedTexture>,
) -> bool {
    &&& prepared.layout_items@.len() == textures.len()
    &&& prepared.images.wf()
    &&& prepared.content_fingerprints.wf()
    &&& forall|i: int|
        0 <= i < textures.len() ==> prepares(prepared, #[trigger] textures[i], i)
    &&& forall|key: Seq<char>| #[trigger]
        prepared.images@.dom().contains(key) ==> lists_text(decoded_keys(textures), key)
    &&& forall|key: Seq<char>| #[trigger]
        prepared.content_fingerprints@.dom().contains(key) ==> lists_text(
            decoded_keys(textures),
            key,
        )
    &&& prepared.prepared_source_bytes == prepared_bytes(textures)
}

/// How the decoded textures resolve to the prepared ones.
pub open spec fn aliases_decoded(
    inputs: Seq<DecodedTexture>,
    dedupe_mode: TextureDedupeMode,
    alias: AtlasAliasRelation,
) -> bool {
    match dedupe_mode {
        TextureDedupeMode::Off => alias is Identity,
        TextureDedupeMode::Exact => {
            &&& alias matches AtlasAliasRelation::Complete(aliases) && aliases.wf()
                && aliases_first(decoded_keys(inputs), decoded_prints(inputs), aliases@)
        },
    }
}

/// The item of a whole image.
fn prepare_item(key: &String, image: PixelImage) -> (r: (PixelImage, LayoutItem))
    requires
        image.wf(),
    ensures
        same_image(r.0, image),
        is_item_of(image, key@, r.1),
{
    let PixelImage { width, height, pixels } = image;
    let (pixels, trimmed, source) = trim_bounds(width, height, pixels, 0);
    let item = LayoutItem {
        key: key.clone(),
        w: source.w,
        h: source.h,
        source: Some(source),
        source_size: Some((width, height)),
        trimmed,
    };
    (PixelImage { width, height, pixels }, item)
}

/// An item of an image with texels is sound.
pub proof fn lemma_item_sound(image: PixelImage, key: Seq<char>, item: LayoutItem)
    requires
        is_item_of(image, key, item),
        image.width > 0,
        image.height > 0,
    ensures
        item_sound(item),
{
}

/// The textures that stand for themselves.
fn keep_prepared(inputs: Vec<DecodedTexture>, dedupe_mode: TextureDedupeMode, aliases: &TextMap<
    String,
>) -> (kept: Vec<DecodedTexture>)
    requires
        aliases.wf(),
        keys_distinct(decoded_keys(inputs@)),
        dedupe_mode == TextureDedupeMode::Exact ==> aliases_first(
            decoded_keys(inputs@),
            decoded_prints(inputs@),
            aliases@,
        ),
    ensures
        kept@ == prepared_before(inputs@, dedupe_mode, inputs@.len() as int),
{
    let ghost source = inputs@;
    let ghost keys = decoded_keys(source);
    let ghost prints = decoded_prints(source);
    let mut rest: Vec<DecodedTexture> = inputs;
    let mut backward: Vec<DecodedTexture> = Vec::new();
    let ghost whole = prepared_before(source, dedupe_mode, source.len() as int);
    while rest.len() > 0
        invariant
            keys == decoded_keys(source),
            prints == decoded_prints(source),
            whole == prepared_before(source, dedupe_mode, source.len() as int),
            aliases.wf(),
            keys_distinct(keys),
            dedupe_mode == TextureDedupeMode::Exact ==> aliases_first(keys, prints, aliases@),
            rest@.len() <= source.len(),
            rest@ == source.take(rest@.len() as int),
            prepared_before(source, dedupe_mode, rest@.len() as int) + backward@.reverse() == whole,
        decreases rest@.len(),
    {
        let ghost n = rest@.len() as int;
        let ghost before = backward@;
        let entry = rest.pop().unwrap();
        assert(entry == source[n - 1]);
        let keeps = match dedupe_mode {
            TextureDedupeMode::Off => true,
            TextureDedupeMode::Exact => {
                proof {
                    lemma_first_same(prints, n - 1);
                    assert(keys[n - 1]@ == entry.key@);
                    assert(aliases@[keys[n - 1]@] == keys[first_same(prints, n - 1)]);
                    assert(lists_text(keys, entry.key@));
                    assert(aliases@.dom().contains(entry.key@));
                    if first_same(prints, n - 1) < n - 1 {
                        assert(keys[first_same(prints, n - 1)]@ != keys[n - 1]@);
                    }
                }
                str_eq(aliases.get(entry.key.as_str()).unwrap().as_str(), entry.key.as_str())
            },
        };
        assert(keeps == is_prepared(source, dedupe_mode, n - 1));
        if keeps {
            backward.push(entry);
            proof {
                assert(backward@.reverse() =~= seq![entry] + before.reverse());
                assert(prepared_before(source, dedupe_mode, n - 1) + backward@.reverse()
                    =~= prepared_before(source, dedupe_mode, n) + before.reverse());
            }
        }
        proof {
            assert(rest@ =~= source.take(n - 1));
        }
    }
    let kept = reversed(backward);
    assert(kept@ =~= whole);
    kept
}

pub proof fn lemma_prepared_subset(
    inputs: Seq<DecodedTexture>,
    dedupe_mode: TextureDedupeMode,
    end: int,
)
    requires
        0 <= end <= inputs.len(),
        forall|i: int, j: int|
            0 <= i < j < inputs.len() ==> (#[trigger] inputs[i]).key@ != (
            #[trigger] inputs[j]).key@,
    ensures
        forall|i: int|
            0 <= i < prepared_before(inputs, dedupe_mode, end).len() ==> inputs.take(end).contains(
                #[trigger] prepared_before(inputs, dedupe_mode, end)[i],
            ),
        forall|i: int, j: int|
            0 <= i < j < prepared_before(inputs, dedupe_mode, end).len() ==> (
            #[trigger] prepared_before(inputs, dedupe_mode, end)[i]).key@ != (
            #[trigger] prepared_before(inputs, dedupe_mode, end)[j]).key@,
    decreases end,
{
    if end > 0 {
        lemma_prepared_subset(inputs, dedupe_mode, end - 1);
        let before = prepared_before(inputs, dedupe_mode, end - 1);
        let now = prepared_before(inputs, dedupe_mode, end);
        let earlier = inputs.take(end - 1);
        assert forall|i: int| 0 <= i < now.len() implies inputs.take(end).contains(
            #[trigger] now[i],
        ) by {
            if i < before.len() {
                assert(inputs.take(end - 1).contains(before[i]));
                let k = choose|k: int| 0 <= k < earlier.len() && earlier[k] == before[i];
                assert(inputs.take(end)[k] == now[i]);
            } else {
                assert(inputs.take(end)[end - 1] == now[i]);
            }
        }
        assert forall|i: int, j: int| 0 <= i < j < now.len() implies (#[trigger] now[i]).key@ != (
        #[trigger] now[j]).key@ by {
            assert(now[i] == before[i]);
            if j < before.len() {
                assert(now[j] == before[j]);
            } else {
                assert(inputs.take(end - 1).contains(before[i]));
                let k = choose|k: int| 0 <= k < earlier.len() && earlier[k] == before[i];
                assert(inputs[k] == before[i]);
                assert(inputs[k].key@ != inputs[end - 1].key@);
            }
        }
    }
}

/// Prepares the listed textures: visible part, fingerprint, and image of each.
fn prepare_kept(kept: Vec<DecodedTexture>) -> (prepared: PreparedAtlasInputs)
    requires
        forall|i: int| 0 <= i < kept@.len() ==> (#[trigger] kept@[i]).image.wf(),
        forall|i: int, j: int|
            0 <= i < j < kept@.len() ==> (#[trigger] kept@[i]).key@ != (#[trigger] kept@[j]).key@,
    ensures
        prepares_all(prepared, kept@),
{
    let ghost source = kept@;
    let total: usize = kept.len();
    let mut reversed: Vec<DecodedTexture> = Vec::new();
    let mut rest: Vec<DecodedTexture> = kept;
    assert(rest@ + reversed@.reverse() =~= source);
    while rest.len() > 0
        invariant
            rest@ + reversed@.reverse() == source,
        decreases rest@.len(),
    {
        let ghost before = reversed@;
        let ghost left = rest@;
        let entry = rest.pop().unwrap();
        reversed.push(entry);
        proof {
            assert(reversed@.reverse() =~= seq![entry] + before.reverse());
            assert(rest@ + reversed@.reverse() =~= left + before.reverse());
        }
    }
    assert(reversed@.reverse() =~= source);
    let mut prepared = PreparedAtlasInputs {
        layout_items: Vec::new(),
        images: TextMap::new(),
        content_fingerprints: TextMap::new(),
        prepared_source_bytes: 0,
        decoded_texture_count: 0,
    };
    let mut done: usize = 0;
    assert(source.take(0) =~= Seq::empty());
    while reversed.len() > 0
        invariant
            done + reversed@.len() == source.len(),
            source.len() == total,
            source.skip(done as int) == reversed@.reverse(),
            prepares_all(prepared, source.take(done as int)),
            prepared.decoded_texture_count == 0,
            forall|i: int| 0 <= i < source.len() ==> (#[trigger] source[i]).image.wf(),
            forall|i: int, j: int|
                0 <= i < j < source.len() ==> (#[trigger] source[i]).key@ != (
                #[trigger] source[j]).key@,
        decreases reversed@.len(),
    {
        let ghost before = prepared;
        let ghost queue = reversed@;
        let entry = reversed.pop().unwrap();
        proof {
            assert(queue.reverse()[0] == entry);
            assert(source.skip(done as int)[0] == source[done as int]);
            assert(source[done as int] == entry);
            assert(source.skip(done + 1) =~= source.skip(done as int).drop_first());
            assert(queue.reverse().drop_first() =~= reversed@.reverse());
        }
        let DecodedTexture { key, image, fingerprint: _ } = entry;
        let length: u64 = image.pixels.len() as u64;
        let ghost original = image;
        let (image, item) = prepare_item(&key, image);
        proof {
            assert(same_image(image, original));
            assert(rect_in_image(image, item.source->0));
        }
        let visible = item.source.unwrap();
        let digest = visible_content_fingerprint(&image, visible);
        proof {
            lemma_same_visible(image, original, visible);
        }
        prepared.prepared_source_bytes = prepared.prepared_source_bytes.saturating_add(length);
        prepared.layout_items.push(item);
        prepared.content_fingerprints.insert(key.clone(), digest);
        prepared.images.insert(key, image);
        proof {
            let seen = source.take(done as int);
            let now = source.take(done + 1);
            assert(now.drop_last() =~= seen);
            assert(now.last() == entry);
            assert(decoded_keys(now) =~= decoded_keys(seen).push(entry.key));
            assert forall|i: int| 0 <= i < now.len() implies prepares(
                prepared,
                #[trigger] now[i],
                i,
            ) by {
                if i < done {
                    assert(seen[i] == now[i]);
                    assert(prepares(before, seen[i], i));
                    assert(source[i].key@ != source[done as int].key@);
                    assert(prepared.layout_items@[i] == before.layout_items@[i]);
                } else {
                    assert(prepared.layout_items@[i] == item);
                }
            }
            assert forall|k: Seq<char>| lists_text(decoded_keys(seen), k) implies lists_text(
                decoded_keys(now),
                k,
            ) by {
                let i = choose|i: int|
                    0 <= i < decoded_keys(seen).len() && (#[trigger] decoded_keys(seen)[i])@ == k;
                assert(decoded_keys(now)[i]@ == k);
            }
            assert(decoded_keys(now)[done as int]@ == entry.key@);
            assert(lists_text(decoded_keys(now), entry.key@));
        }
        done = done + 1;
    }
    assert(source.take(done as int) =~= source);
    prepared
}

proof fn lemma_same_visible(a: PixelImage, b: PixelImage, source: Rect)
    requires
        same_image(a, b),
    ensures
        visible_bytes(a, source) == visible_bytes(b, source),
{
    lemma_same_rows(a, b, source, source.h as int);
}

proof fn lemma_same_rows(a: PixelImage, b: PixelImage, source: Rect, rows: int)
    requires
        same_image(a, b),
    ensures
        rows_bytes(a, source, rows) == rows_bytes(b, source, rows),
    decreases rows,
{
    if rows > 0 {
        lemma_same_rows(a, b, source, rows - 1);
    }
}

/// `sorted` lists the textures by ascending key.
pub open spec fn sorts_textures(
    inputs: Seq<DecodedTexture>,
    sorted: Seq<DecodedTexture>,
) -> bool {
    strictly_ranked(sorted) && sorted.to_multiset() == inputs.to_multiset()
}

/// `prepared` and `alias` are what the sorted textures give.
pub open spec fn is_preparation(
    sorted: Seq<DecodedTexture>,
    dedupe_mode: TextureDedupeMode,
    prepared: PreparedAtlasInputs,
    alias: AtlasAliasRelation,
) -> bool {
    &&& prepares_all(
        prepared,
        prepared_before(sorted, dedupe_mode, sorted.len() as int),
    )
    &&& prepared.decoded_texture_count == sorted.len()
    &&& aliases_decoded(sorted, dedupe_mode, alias)
}

/// Performs decoded dedupe and computes placements without allocating page canvases.
///
/// Sorted key order fixes the canonical of identical content: the first key stands for the others.
pub fn prepare_textures(inputs: Vec<DecodedTexture>, dedupe_mode: TextureDedupeMode) -> (r: (
    PreparedAtlasInputs,
    AtlasAliasRelation,
))
    requires
        forall|i: int| 0 <= i < inputs@.len() ==> (#[trigger] inputs@[i]).image.wf(),
        forall|i: int, j: int|
            0 <= i < j < inputs@.len() ==> (#[trigger] inputs@[i]).key@ != (
            #[trigger] inputs@[j]).key@,
    ensures
        exists|sorted: Seq<DecodedTexture>|
            #[trigger] sorts_textures(inputs@, sorted) && is_preparation(
                sorted,
                dedupe_mode,
                r.0,
                r.1,
            ),
        r.1.wf(),
{
    let ghost source = inputs@;
    let sorted = sort_ranked(inputs);
    proof {
        assert(distinct_ranks(source)) by {
            assert forall|i: int, j: int|
                0 <= i < source.len() && 0 <= j < source.len() && i != j implies !((
            #[trigger] source[i]).ranks_le(#[trigger] source[j]) && source[j].ranks_le(
                source[i],
            )) by {
                lemma_text_order(source[i].key@, source[j].key@);
                if i < j {
                    assert(source[i].key@ != source[j].key@);
                } else {
                    assert(source[j].key@ != source[i].key@);
                }
            }
        }
        lemma_ranked_strict(source, sorted@);
    }
    let ghost list = sorted@;
    proof {
        assert forall|i: int, j: int| 0 <= i < j < list.len() implies (#[trigger] list[i]).key@ != (
        #[trigger] list[j]).key@ by {
            assert(list[i].ranks_le(list[j]) && !list[j].ranks_le(list[i]));
            lemma_text_order(list[i].key@, list[j].key@);
        }
        assert forall|i: int| 0 <= i < list.len() implies (#[trigger] list[i]).image.wf() by {
            assert(list.contains(list[i]));
            assert(source.contains(list[i]));
            let k = choose|k: int| 0 <= k < source.len() && source[k] == list[i];
            assert(source[k].image.wf());
        }
        assert(keys_distinct(decoded_keys(list))) by {
            assert forall|i: int, j: int| 0 <= i < j < decoded_keys(list).len() implies (
            #[trigger] decoded_keys(list)[i])@ != (#[trigger] decoded_keys(list)[j])@ by {
                assert(list[i].key@ != list[j].key@);
            }
        }
        lemma_prepared_subset(list, dedupe_mode, list.len() as int);
        assert(list.take(list.len() as int) =~= list);
    }
    let count: usize = sorted.len();
    let mut keys: Vec<String> = Vec::new();
    let mut prints: Vec<(u64, [u8; 32])> = Vec::new();
    let mut i: usize = 0;
    while i < sorted.len()
        invariant
            i <= sorted@.len(),
            sorted@ == list,
            keys@ == decoded_keys(list).take(i as int),
            prints@ == decoded_prints(list).take(i as int),
        decreases sorted@.len() - i,
    {
        keys.push(sorted[i].key.clone());
        prints.push((0, sorted[i].fingerprint));
        proof {
            assert(decoded_keys(list).take(i + 1) =~= decoded_keys(list).take(i as int).push(
                decoded_keys(list)[i as int],
            ));
            assert(decoded_prints(list).take(i + 1) =~= decoded_prints(list).take(i as int).push(
                decoded_prints(list)[i as int],
            ));
        }
        i = i + 1;
    }
    proof {
        assert(decoded_keys(list).take(i as int) =~= decoded_keys(list));
        assert(decoded_prints(list).take(i as int) =~= decoded_prints(list));
    }
    let aliases: TextMap<String> = match dedupe_mode {
        TextureDedupeMode::Off => TextMap::new(),
        TextureDedupeMode::Exact => build_alias_map(&keys, &prints).1,
    };
    let kept = keep_prepared(sorted, dedupe_mode, &aliases);
    proof {
        assert forall|k: int| 0 <= k < kept@.len() implies (#[trigger] kept@[k]).image.wf() by {
            assert(list.contains(prepared_before(list, dedupe_mode, list.len() as int)[k]));
            let j = choose|j: int| 0 <= j < list.len() && list[j] == kept@[k];
            assert(list[j].image.wf());
        }
    }
    let mut prepared = prepare_kept(kept);
    prepared.decoded_texture_count = count;
    let alias = match dedupe_mode {
        TextureDedupeMode::Off => AtlasAliasRelation::Identity,
        TextureDedupeMode::Exact => AtlasAliasRelation::Complete(aliases),
    };
    proof {
        assert(sorts_textures(inputs@, list));
        assert(is_preparation(list, dedupe_mode, prepared, alias));
    }
    (prepared, alias)
}

} // verus!
