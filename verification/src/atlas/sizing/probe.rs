//! Source texture metadata, from headers alone.

use crate::atlas::group::lists_text;
use crate::atlas::sizing::SourceTextureInfo;
use crate::atlas::types::AtlasTextureSet;
use crate::byte_text::{ends_uncased, ends_with_uncased};
use crate::bytes::{blake3_hash, blake3_of, from_low_bytes};
use crate::ordered_map::OrderedTextMap;
use crate::text::{ascending, texts};
use crate::text_map::TextMap;
use vstd::prelude::*;

verus! {

/// The 32-bit value at an offset, in little-endian order.
pub open spec fn u32_at(bytes: Seq<u8>, offset: int) -> nat {
    from_low_bytes(bytes.subrange(offset, offset + 4))
}

/// Reads the 32-bit value at an offset, in little-endian order.
pub fn read_u32(bytes: &[u8], offset: usize) -> (r: u32)
    requires
        offset + 4 <= bytes@.len(),
    ensures
        r == u32_at(bytes@, offset as int),
{
    proof {
        let part = bytes@.subrange(offset as int, offset + 4);
        reveal_with_fuel(from_low_bytes, 5);
        assert(part.drop_first() =~= part.subrange(1, 4));
        assert(part.drop_first().drop_first() =~= part.subrange(2, 4));
        assert(part.drop_first().drop_first().drop_first() =~= part.subrange(3, 4));
        assert(part.drop_first().drop_first().drop_first().drop_first().len() == 0);
    }
    bytes[offset] as u32 + 256 * bytes[offset + 1] as u32 + 65536 * bytes[offset + 2] as u32
        + 16777216 * bytes[offset + 3] as u32
}

/// Flag of a DDS header that carries a mip count.
pub const DDSD_MIPMAPCOUNT: u32 = 0x0002_0000;

/// Width, height, and mip count in a DDS header: after the four-byte magic, flags at 8, height at
/// 12, width at 16, and the mip count at 28. A header without a mip count, or with zero, has one.
pub open spec fn dds_header(bytes: Seq<u8>) -> Option<(nat, nat, nat)> {
    if bytes.len() < 32 {
        None
    } else {
        let counted = (u32_at(bytes, 8) / DDSD_MIPMAPCOUNT as nat) % 2 == 1;
        let mips = if counted && u32_at(bytes, 28) > 1 {
            u32_at(bytes, 28)
        } else {
            1
        };
        Some((u32_at(bytes, 16), u32_at(bytes, 12), mips))
    }
}

/// Parses width, height, and mip count from a DDS header without decoding pixels.
pub fn probe_dds(bytes: &[u8]) -> (r: Option<(u32, u32, u32)>)
    ensures
        match r {
            Some((width, height, mips)) => dds_header(bytes@) == Some(
                (width as nat, height as nat, mips as nat),
            ),
            None => dds_header(bytes@) is None,
        },
{
    if bytes.len() < 32 {
        return None;
    }
    let flags: u32 = read_u32(bytes, 8);
    let height: u32 = read_u32(bytes, 12);
    let width: u32 = read_u32(bytes, 16);
    let mips: u32 = if (flags / DDSD_MIPMAPCOUNT) % 2 == 1 {
        let count: u32 = read_u32(bytes, 28);
        if count > 1 {
            count
        } else {
            1
        }
    } else {
        1
    };
    Some((width, height, mips))
}

/// What the extension of a texture says of its content.
#[derive(Clone, Copy, Debug)]
pub enum ProbedFormat {
    /// A DDS file.
    Dds,
    /// Another image file; its decoder reports these dimensions, if any.
    Image(Option<(u32, u32)>),
    /// No known image format.
    Unknown,
}

/// Dimensions, mip count, and whether the source is a DDS file; unprobeable sources have none.
pub open spec fn probed(format: ProbedFormat, bytes: Seq<u8>) -> (nat, nat, nat, bool) {
    match format {
        ProbedFormat::Dds => match dds_header(bytes) {
            Some((width, height, mips)) => (width, height, mips, true),
            None => (0, 0, 1, true),
        },
        ProbedFormat::Image(Some((width, height))) => (width as nat, height as nat, 1, false),
        ProbedFormat::Image(None) => (0, 0, 1, false),
        ProbedFormat::Unknown => (0, 0, 1, false),
    }
}

/// Returns `(width, height, mip_count, is_dds)` of a source of known format, falling back to zero
/// dimensions when it cannot be probed.
///
/// `bytes` is the front of the file or all of it.
pub fn probed_dimensions(format: ProbedFormat, bytes: &[u8]) -> (r: (u32, u32, u32, bool))
    ensures
        probed(format, bytes@) == (r.0 as nat, r.1 as nat, r.2 as nat, r.3),
{
    match format {
        ProbedFormat::Dds => match probe_dds(bytes) {
            Some((width, height, mips)) => (width, height, mips, true),
            None => (0, 0, 1, true),
        },
        ProbedFormat::Image(Some((width, height))) => (width, height, 1, false),
        ProbedFormat::Image(None) => (0, 0, 1, false),
        ProbedFormat::Unknown => (0, 0, 1, false),
    }
}

/// An image format that the decoders read, other than DDS.
#[derive(Clone, Copy, Debug, PartialEq, Eq, Structural)]
pub enum ImageKind {
    Bmp,
    Tga,
}

/// The dimensions that the decoder of a format reports of the bytes, where it accepts them.
pub uninterp spec fn decoder_dimensions(kind: ImageKind, bytes: Seq<u8>) -> Option<(u32, u32)>;

/// `image::ImageReader::with_format` on the bytes, followed by `into_dimensions`.
///
/// What the decoder reports depends on the format and the bytes alone. Which bytes it accepts is
/// left unsaid.
#[verifier::external_body]
fn image_dimensions(kind: ImageKind, bytes: &[u8]) -> (r: Option<(u32, u32)>)
    ensures
        r == decoder_dimensions(kind, bytes@),
{
    let format = match kind {
        ImageKind::Bmp => image::ImageFormat::Bmp,
        ImageKind::Tga => image::ImageFormat::Tga,
    };
    image::ImageReader::with_format(std::io::Cursor::new(bytes), format).into_dimensions().ok()
}

/// What the extension of a key says of the bytes.
pub open spec fn format_of(key: Seq<char>, bytes: Seq<u8>) -> ProbedFormat {
    if ends_uncased(key, ".dds"@) {
        ProbedFormat::Dds
    } else if ends_uncased(key, ".bmp"@) {
        ProbedFormat::Image(decoder_dimensions(ImageKind::Bmp, bytes))
    } else if ends_uncased(key, ".tga"@) {
        ProbedFormat::Image(decoder_dimensions(ImageKind::Tga, bytes))
    } else {
        ProbedFormat::Unknown
    }
}

/// Chooses the decoder from the extension of a key and asks it for the dimensions.
pub fn probe_format(key: &str, bytes: &[u8]) -> (r: ProbedFormat)
    ensures
        r == format_of(key@, bytes@),
{
    if ends_with_uncased(key, ".dds") {
        ProbedFormat::Dds
    } else if ends_with_uncased(key, ".bmp") {
        ProbedFormat::Image(image_dimensions(ImageKind::Bmp, bytes))
    } else if ends_with_uncased(key, ".tga") {
        ProbedFormat::Image(image_dimensions(ImageKind::Tga, bytes))
    } else {
        ProbedFormat::Unknown
    }
}

/// Returns `(width, height, mip_count, is_dds)`, falling back to zero dimensions when a source
/// cannot be probed (the planner then keeps that texture at baseline).
///
/// The decoder is chosen from the extension of `key`. `bytes` is the front of the file or all of it.
pub fn probe_dimensions(key: &str, bytes: &[u8]) -> (r: (u32, u32, u32, bool))
    ensures
        probed(format_of(key@, bytes@), bytes@) == (r.0 as nat, r.1 as nat, r.2 as nat, r.3),
{
    probed_dimensions(probe_format(key, bytes), bytes)
}

/// Size and content hash of a source held in memory.
pub fn fingerprint_bytes(bytes: &[u8]) -> (r: (u64, [u8; 32]))
    ensures
        r.0 == bytes@.len(),
        r.1@ == blake3_of(bytes@),
{
    (bytes.len() as u64, blake3_hash(bytes))
}

/// The metadata of a source whose bytes are all at hand.
pub open spec fn describes_source(
    info: SourceTextureInfo,
    key: Seq<char>,
    bytes: Seq<u8>,
) -> bool {
    &&& info.size == bytes.len()
    &&& info.hash@ == blake3_of(bytes)
    &&& probed(format_of(key, bytes), bytes) == (
        info.width as nat,
        info.height as nat,
        info.mip_count as nat,
        info.is_dds,
    )
}

/// Fingerprints and probes a source held in memory.
pub fn source_info_from_bytes(key: &str, bytes: &[u8]) -> (r: SourceTextureInfo)
    ensures
        describes_source(r, key@, bytes@),
{
    let (size, hash) = fingerprint_bytes(bytes);
    let (width, height, mip_count, is_dds) = probe_dimensions(key, bytes);
    SourceTextureInfo { size, hash, width, height, mip_count, is_dds }
}

/// The keys of both domains, each once and ascending: a texture may be referenced by both domains,
/// and each distinct source is probed exactly once.
pub fn source_keys(textures: &AtlasTextureSet<Vec<String>>) -> (r: Vec<String>)
    ensures
        ascending(texts(r@)),
        forall|key: Seq<char>| #[trigger]
            lists_text(r@, key) <==> lists_text(textures.opaque@, key) || lists_text(
                textures.alpha@,
                key,
            ),
{
    let mut seen: OrderedTextMap<bool> = OrderedTextMap::new();
    note_keys(&mut seen, textures.opaque.as_slice());
    note_keys(&mut seen, textures.alpha.as_slice());
    let mut keys: Vec<String> = Vec::new();
    let mut i: usize = 0;
    while i < seen.len()
        invariant
            i <= seen.listed().len(),
            keys@.len() == i,
            forall|k: int| 0 <= k < i ==> #[trigger] keys@[k] == seen.listed()[k].0,
        decreases seen.listed().len() - i,
    {
        keys.push(seen.key_at(i).clone());
        i = i + 1;
    }
    proof {
        assert(ascending(texts(keys@))) by {
            assert forall|a: int, b: int| 0 <= a < b < texts(keys@).len() implies crate::text::text_lt(
                #[trigger] texts(keys@)[a],
                #[trigger] texts(keys@)[b],
            ) by {
                assert(keys@[a] == seen.listed()[a].0);
                assert(keys@[b] == seen.listed()[b].0);
            }
        }
        assert forall|key: Seq<char>| #[trigger] lists_text(keys@, key) <==> seen@.dom().contains(
            key,
        ) by {
            if lists_text(keys@, key) {
                let k = choose|k: int| 0 <= k < keys@.len() && (#[trigger] keys@[k])@ == key;
                assert(seen.listed()[k].0@ == key);
            }
            if seen@.dom().contains(key) {
                let k = choose|k: int|
                    0 <= k < seen.listed().len() && (#[trigger] seen.listed()[k]).0@ == key;
                assert(keys@[k]@ == key);
            }
        }
    }
    keys
}

fn note_keys(seen: &mut OrderedTextMap<bool>, keys: &[String])
    requires
        old(seen).wf(),
    ensures
        final(seen).wf(),
        forall|key: Seq<char>| #[trigger]
            final(seen)@.dom().contains(key) <==> old(seen)@.dom().contains(key) || lists_text(
                keys@,
                key,
            ),
{
    let mut i: usize = 0;
    while i < keys.len()
        invariant
            i <= keys@.len(),
            seen.wf(),
            forall|key: Seq<char>| #[trigger]
                seen@.dom().contains(key) <==> old(seen)@.dom().contains(key) || lists_text(
                    keys@.take(i as int),
                    key,
                ),
        decreases keys@.len() - i,
    {
        let ghost before = seen@;
        seen.insert(keys[i].clone(), true);
        proof {
            let done = keys@.take(i as int);
            let now = keys@.take(i + 1);
            assert forall|key: Seq<char>| #[trigger] seen@.dom().contains(key) <==> old(
                seen,
            )@.dom().contains(key) || lists_text(now, key) by {
                assert(before.dom().contains(key) <==> old(seen)@.dom().contains(key) || lists_text(
                    done,
                    key,
                ));
                if lists_text(done, key) {
                    let k = choose|k: int| 0 <= k < done.len() && (#[trigger] done[k])@ == key;
                    assert(now[k]@ == key);
                }
                if key == keys@[i as int]@ {
                    assert(now[i as int]@ == key);
                }
                if lists_text(now, key) && key != keys@[i as int]@ {
                    let k = choose|k: int| 0 <= k < now.len() && (#[trigger] now[k])@ == key;
                    assert(done[k]@ == key);
                }
            }
        }
        i = i + 1;
    }
    assert(keys@.take(i as int) =~= keys@);
}

/// Some sources could not be read.
#[derive(Clone, Copy, Debug, PartialEq, Eq, Structural)]
pub struct ProbeError {
    pub dropped: usize,
    pub total: usize,
}

/// How many of the first `end` sources could not be read.
pub open spec fn dropped_before(probed: Seq<Option<SourceTextureInfo>>, end: int) -> nat
    decreases end,
{
    if end <= 0 {
        0
    } else {
        dropped_before(probed, end - 1) + if probed[end - 1] is None {
            1nat
        } else {
            0
        }
    }
}

/// Files what was probed under its key. Every key must have been probed.
pub fn gather_source_info(keys: &[String], probed: &[Option<SourceTextureInfo>]) -> (r: Result<
    TextMap<SourceTextureInfo>,
    ProbeError,
>)
    requires
        keys@.len() == probed@.len(),
        ascending(texts(keys@)),
    ensures
        match r {
            Ok(map) => {
                &&& map.wf()
                &&& dropped_before(probed@, probed@.len() as int) == 0
                &&& forall|key: Seq<char>| #[trigger]
                    map@.dom().contains(key) <==> lists_text(keys@, key)
                &&& forall|i: int|
                    0 <= i < keys@.len() ==> Some(map@[(#[trigger] keys@[i])@]) == probed@[i]
            },
            Err(e) => {
                &&& e.dropped > 0
                &&& e.dropped == dropped_before(probed@, probed@.len() as int)
                &&& e.total == keys@.len()
            },
        },
{
    let mut map: TextMap<SourceTextureInfo> = TextMap::new();
    let mut dropped: usize = 0;
    let mut i: usize = 0;
    proof {
        crate::atlas::plan_domain::lemma_ascending_distinct(keys@);
    }
    while i < keys.len()
        invariant
            i <= keys@.len(),
            keys@.len() == probed@.len(),
            crate::atlas::pack::keys_distinct(keys@),
            map.wf(),
            dropped <= i,
            dropped == dropped_before(probed@, i as int),
            forall|key: Seq<char>| #[trigger]
                map@.dom().contains(key) ==> lists_text(keys@.take(i as int), key),
            dropped == 0 ==> forall|k: int|
                0 <= k < i ==> map@.dom().contains((#[trigger] keys@[k])@) && Some(map@[keys@[k]@])
                    == probed@[k],
        decreases keys@.len() - i,
    {
        let ghost before = map@;
        match probed[i] {
            Some(info) => {
                map.insert(keys[i].clone(), info);
            },
            None => {
                dropped = dropped + 1;
            },
        }
        proof {
            let done = keys@.take(i as int);
            let now = keys@.take(i + 1);
            assert forall|key: Seq<char>| #[trigger] map@.dom().contains(key) implies lists_text(
                now,
                key,
            ) by {
                if before.dom().contains(key) {
                    let k = choose|k: int| 0 <= k < done.len() && (#[trigger] done[k])@ == key;
                    assert(now[k]@ == key);
                } else {
                    assert(now[i as int]@ == key);
                }
            }
            if dropped == 0 {
                assert forall|k: int| 0 <= k < i + 1 implies map@.dom().contains(
                    (#[trigger] keys@[k])@,
                ) && Some(map@[keys@[k]@]) == probed@[k] by {
                    if k < i {
                        assert(keys@[k]@ != keys@[i as int]@);
                    }
                }
            }
        }
        i = i + 1;
    }
    assert(keys@.take(i as int) =~= keys@);
    if dropped > 0 {
        return Err(ProbeError { dropped, total: keys.len() });
    }
    proof {
        assert forall|key: Seq<char>| lists_text(keys@, key) implies #[trigger] map@.dom().contains(
            key,
        ) by {
            let k = choose|k: int| 0 <= k < keys@.len() && (#[trigger] keys@[k])@ == key;
        }
    }
    Ok(map)
}

/// Every key has its metadata.
pub open spec fn all_probed(
    source_info: Map<Seq<char>, SourceTextureInfo>,
    keys: Seq<String>,
) -> bool {
    forall|i: int| 0 <= i < keys.len() ==> source_info.dom().contains((#[trigger] keys[i])@)
}

/// Size and content hash of each key.
pub open spec fn lists_fingerprints(
    source_info: Map<Seq<char>, SourceTextureInfo>,
    keys: Seq<String>,
    fingerprints: Seq<(u64, [u8; 32])>,
) -> bool {
    &&& fingerprints.len() == keys.len()
    &&& forall|i: int|
        0 <= i < keys.len() ==> fingerprints[i] == (
            source_info[(#[trigger] keys[i])@].size,
            source_info[keys[i]@].hash,
        )
}

fn domain_fingerprints(source_info: &TextMap<SourceTextureInfo>, keys: &[String]) -> (r: Vec<
    (u64, [u8; 32]),
>)
    requires
        source_info.wf(),
        all_probed(source_info@, keys@),
    ensures
        lists_fingerprints(source_info@, keys@, r@),
{
    let mut r: Vec<(u64, [u8; 32])> = Vec::new();
    let mut i: usize = 0;
    while i < keys.len()
        invariant
            i <= keys@.len(),
            source_info.wf(),
            all_probed(source_info@, keys@),
            lists_fingerprints(source_info@, keys@.take(i as int), r@),
        decreases keys@.len() - i,
    {
        assert(source_info@.dom().contains(keys@[i as int]@));
        let info = source_info.get(keys[i].as_str()).unwrap();
        r.push((info.size, info.hash));
        i = i + 1;
    }
    assert(keys@.take(i as int) =~= keys@);
    r
}

/// Rebuilds per-domain `(size, hash)` lists from the source metadata.
pub fn fingerprints_from_source_info(
    source_info: &TextMap<SourceTextureInfo>,
    textures: &AtlasTextureSet<Vec<String>>,
) -> (r: AtlasTextureSet<Vec<(u64, [u8; 32])>>)
    requires
        source_info.wf(),
        all_probed(source_info@, textures.opaque@),
        all_probed(source_info@, textures.alpha@),
    ensures
        lists_fingerprints(source_info@, textures.opaque@, r.opaque@),
        lists_fingerprints(source_info@, textures.alpha@, r.alpha@),
{
    AtlasTextureSet::new(
        domain_fingerprints(source_info, textures.opaque.as_slice()),
        domain_fingerprints(source_info, textures.alpha.as_slice()),
    )
}

} // verus!
