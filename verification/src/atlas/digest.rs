//! Fingerprint of what a family's layout depends on.

use crate::atlas::error::AtlasError;
use crate::atlas::group::PreparedAtlasGroup;
use crate::atlas::sizing::AtlasDomain;
use crate::atlas::write::{domain_prefix, prefix_of};
use crate::bytes::{blake3_hash, blake3_of, framed, low_bytes, push_all, push_framed, push_u32, push_u64};
use vstd::prelude::*;
use vstd::utf8::encode_utf8;

verus! {

/// What the fingerprinted bytes begin with: names the recipe and its version.
pub const LAYOUT_DIGEST_TAG: &'static str = "tes3-distantland-atlas-family-layout-v2";

/// The first `end` keys, each preceded by its length.
pub open spec fn framed_keys(keys: Seq<String>, end: int) -> Seq<u8>
    decreases end,
{
    if end <= 0 {
        Seq::empty()
    } else {
        framed_keys(keys, end - 1) + framed(encode_utf8(keys[end - 1]@))
    }
}

/// One byte for a truth value.
pub open spec fn flag_byte(flag: bool) -> u8 {
    if flag {
        1
    } else {
        0
    }
}

/// What a group adds to the fingerprinted bytes.
pub open spec fn group_bytes(group: PreparedAtlasGroup) -> Seq<u8> {
    let item = group.item;
    let source = item.source->0;
    let size = item.source_size->0;
    framed(encode_utf8(group.group_key@)) + low_bytes(group.logical_keys@.len(), 8)
        + framed_keys(group.logical_keys@, group.logical_keys@.len() as int) + low_bytes(
        item.w as nat,
        4,
    ) + low_bytes(item.h as nat, 4) + low_bytes(source.x as nat, 4) + low_bytes(source.y as nat, 4)
        + low_bytes(source.w as nat, 4) + low_bytes(source.h as nat, 4) + low_bytes(
        size.0 as nat,
        4,
    ) + low_bytes(size.1 as nat, 4) + seq![flag_byte(item.trimmed)]
}

/// What the first `end` groups add to the fingerprinted bytes.
pub open spec fn groups_bytes(groups: Seq<PreparedAtlasGroup>, end: int) -> Seq<u8>
    decreases end,
{
    if end <= 0 {
        Seq::empty()
    } else {
        groups_bytes(groups, end - 1) + group_bytes(groups[end - 1])
    }
}

/// The fingerprinted bytes of a family's layout.
pub open spec fn layout_bytes(
    domain: AtlasDomain,
    shared_bytes: Seq<u8>,
    family_bytes: Seq<u8>,
    groups: Seq<PreparedAtlasGroup>,
) -> Seq<u8> {
    encode_utf8(LAYOUT_DIGEST_TAG@) + framed(encode_utf8(prefix_of(domain))) + framed(shared_bytes)
        + framed(family_bytes) + groups_bytes(groups, groups.len() as int)
}

/// The first `end` groups say which part of which image they place.
pub open spec fn sources_known(groups: Seq<PreparedAtlasGroup>, end: int) -> bool {
    forall|g: int|
        0 <= g < end ==> (#[trigger] groups[g]).item.source is Some
            && groups[g].item.source_size is Some
}

/// Group `g` is the first that lacks a source, and `error` says what it lacks.
pub open spec fn lacks_source(groups: Seq<PreparedAtlasGroup>, g: int, error: AtlasError) -> bool {
    &&& 0 <= g < groups.len()
    &&& sources_known(groups, g)
    &&& if groups[g].item.source is None {
        error == AtlasError::SourceRectMissing
    } else {
        groups[g].item.source_size is None && error == AtlasError::SourceSizeMissing
    }
}

fn push_keys(out: &mut Vec<u8>, keys: &Vec<String>)
    ensures
        final(out)@ == old(out)@ + framed_keys(keys@, keys@.len() as int),
{
    let mut i: usize = 0;
    assert(out@ =~= old(out)@ + framed_keys(keys@, 0));
    while i < keys.len()
        invariant
            i <= keys@.len(),
            out@ == old(out)@ + framed_keys(keys@, i as int),
        decreases keys@.len() - i,
    {
        push_framed(out, keys[i].as_str().as_bytes());
        i = i + 1;
        assert(out@ =~= old(out)@ + framed_keys(keys@, i as int));
    }
}

fn push_group(out: &mut Vec<u8>, group: &PreparedAtlasGroup) -> (r: Result<(), AtlasError>)
    ensures
        match r {
            Ok(_) => {
                &&& group.item.source is Some
                &&& group.item.source_size is Some
                &&& final(out)@ == old(out)@ + group_bytes(*group)
            },
            Err(e) => if group.item.source is None {
                e == AtlasError::SourceRectMissing
            } else {
                group.item.source_size is None && e == AtlasError::SourceSizeMissing
            },
        },
{
    push_framed(out, group.group_key.as_str().as_bytes());
    push_u64(out, group.logical_keys.len() as u64);
    push_keys(out, &group.logical_keys);
    push_u32(out, group.item.w);
    push_u32(out, group.item.h);
    let source = match group.item.source {
        Some(source) => source,
        None => return Err(AtlasError::SourceRectMissing),
    };
    push_u32(out, source.x);
    push_u32(out, source.y);
    push_u32(out, source.w);
    push_u32(out, source.h);
    let size = match group.item.source_size {
        Some(size) => size,
        None => return Err(AtlasError::SourceSizeMissing),
    };
    push_u32(out, size.0);
    push_u32(out, size.1);
    out.push(if group.item.trimmed {
        1
    } else {
        0
    });
    assert(out@ =~= old(out)@ + group_bytes(*group));
    Ok(())
}

/// Fingerprints what a family's layout depends on.
///
/// `shared_bytes` and `family_bytes` are the serialized configurations.
pub fn family_layout_digest(
    domain: AtlasDomain,
    shared_bytes: &[u8],
    family_bytes: &[u8],
    groups: &[PreparedAtlasGroup],
) -> (r: Result<[u8; 32], AtlasError>)
    ensures
        match r {
            Ok(digest) => {
                &&& sources_known(groups@, groups@.len() as int)
                &&& digest@ == blake3_of(layout_bytes(domain, shared_bytes@, family_bytes@, groups@))
            },
            Err(e) => exists|g: int| #[trigger] lacks_source(groups@, g, e),
        },
{
    let mut out: Vec<u8> = Vec::new();
    push_all(&mut out, LAYOUT_DIGEST_TAG.as_bytes());
    push_framed(&mut out, domain_prefix(domain).as_bytes());
    push_framed(&mut out, shared_bytes);
    push_framed(&mut out, family_bytes);
    let ghost head = out@;
    let mut i: usize = 0;
    assert(out@ =~= head + groups_bytes(groups@, 0));
    while i < groups.len()
        invariant
            i <= groups@.len(),
            sources_known(groups@, i as int),
            out@ == head + groups_bytes(groups@, i as int),
        decreases groups@.len() - i,
    {
        match push_group(&mut out, &groups[i]) {
            Ok(_) => {},
            Err(e) => {
                assert(lacks_source(groups@, i as int, e));
                return Err(e);
            },
        }
        i = i + 1;
        assert(out@ =~= head + groups_bytes(groups@, i as int));
    }
    assert(out@ =~= layout_bytes(domain, shared_bytes@, family_bytes@, groups@));
    Ok(blake3_hash(out.as_slice()))
}

} // verus!
