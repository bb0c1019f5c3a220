//! Keys of mesh overrides.

use crate::byte_text::{lower_char, push_char};
use crate::decimal::chars_of;
use vstd::prelude::*;

verus! {

/// The character of a mesh key: small, with slashes turned.
pub open spec fn key_char(c: char) -> char {
    if c == '/' {
        '\\'
    } else {
        lower_char(c)
    }
}

/// The text without the prefix, where it has it.
pub open spec fn without_prefix(s: Seq<char>, prefix: Seq<char>) -> Seq<char> {
    if prefix.is_prefix_of(s) {
        s.skip(prefix.len() as int)
    } else {
        s
    }
}

/// The path in small letters, with slashes turned.
pub open spec fn turned(path: Seq<char>) -> Seq<char> {
    path.map_values(|c: char| key_char(c))
}

/// The key of a mesh path: small letters, backslashes, and relative to the mesh directory.
pub open spec fn mesh_key(path: Seq<char>) -> Seq<char> {
    without_prefix(without_prefix(turned(path), "data files\\"@), "meshes\\"@)
}

/// The characters without the prefix, where they start with it.
pub fn strip_prefix(chars: Vec<char>, prefix: &str) -> (r: Vec<char>)
    ensures
        r@ == without_prefix(chars@, prefix@),
{
    let wanted: Vec<char> = chars_of(prefix);
    if wanted.len() > chars.len() {
        return chars;
    }
    let mut i: usize = 0;
    while i < wanted.len()
        invariant
            i <= wanted@.len() <= chars@.len(),
            wanted@ == prefix@,
            forall|k: int| 0 <= k < i ==> chars@[k] == wanted@[k],
        decreases wanted@.len() - i,
    {
        if chars[i] != wanted[i] {
            assert(!prefix@.is_prefix_of(chars@)) by {
                if prefix@.is_prefix_of(chars@) {
                    assert(prefix@[i as int] == chars@.subrange(0, prefix@.len() as int)[i as int]);
                }
            }
            return chars;
        }
        i = i + 1;
    }
    assert(prefix@.is_prefix_of(chars@)) by {
        assert(prefix@ =~= chars@.subrange(0, prefix@.len() as int));
    }
    let mut r: Vec<char> = Vec::new();
    while i < chars.len()
        invariant
            wanted@.len() <= i <= chars@.len(),
            r@ == chars@.subrange(wanted@.len() as int, i as int),
        decreases chars@.len() - i,
    {
        r.push(chars[i]);
        assert(chars@.subrange(wanted@.len() as int, i + 1) =~= chars@.subrange(
            wanted@.len() as int,
            i as int,
        ).push(chars@[i as int]));
        i = i + 1;
    }
    assert(r@ =~= chars@.skip(wanted@.len() as int));
    r
}

/// The characters of the path in small letters, with slashes turned.
pub fn turned_chars(path: &str) -> (r: Vec<char>)
    ensures
        r@ == turned(path@),
{
    let given: Vec<char> = chars_of(path);
    let mut chars: Vec<char> = Vec::new();
    let mut i: usize = 0;
    while i < given.len()
        invariant
            i <= given@.len(),
            given@ == path@,
            chars@ == turned(path@).take(i as int),
        decreases given@.len() - i,
    {
        let c = given[i];
        if c == '/' {
            chars.push('\\');
        } else if c >= 'A' && c <= 'Z' {
            chars.push((c as u8 + 32) as char);
        } else {
            chars.push(c);
        }
        assert(turned(path@).take(i + 1) =~= turned(path@).take(i as int).push(
            key_char(path@[i as int]),
        ));
        i = i + 1;
    }
    assert(turned(path@).take(i as int) =~= turned(path@));
    chars
}

/// The text of the characters.
pub fn text_of(chars: &Vec<char>) -> (r: String)
    ensures
        r@ == chars@,
{
    let mut r = String::new();
    let mut i: usize = 0;
    while i < chars.len()
        invariant
            i <= chars@.len(),
            r@ == chars@.take(i as int),
        decreases chars@.len() - i,
    {
        push_char(&mut r, chars[i]);
        assert(chars@.take(i + 1) =~= chars@.take(i as int).push(chars@[i as int]));
        i = i + 1;
    }
    assert(chars@.take(i as int) =~= chars@);
    r
}

/// The key of a mesh path.
pub fn normalize_mesh_override_key(path: &str) -> (r: String)
    ensures
        r@ == mesh_key(path@),
{
    text_of(&strip_prefix(strip_prefix(turned_chars(path), "data files\\"), "meshes\\"))
}

} // verus!
