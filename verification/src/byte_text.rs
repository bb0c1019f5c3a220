//! Text held as bytes: whitespace, case, numerals and UTF-8.

use bstr::ByteSlice;
use uncased::UncasedStr;
use vstd::prelude::*;
use vstd::utf8::{decode_utf8, valid_utf8};

verus! {

/// The three bytes encode a character with the `White_Space` property.
pub open spec fn wide_space(a: u8, b: u8, c: u8) -> bool {
    ||| a == 0xe1 && b == 0x9a && c == 0x80
    ||| a == 0xe2 && b == 0x80 && (0x80 <= c <= 0x8a || c == 0xa8 || c == 0xa9 || c == 0xaf)
    ||| a == 0xe2 && b == 0x81 && c == 0x9f
    ||| a == 0xe3 && b == 0x80 && c == 0x80
}

/// Length of the encoded `White_Space` character at the front, 0 where none stands there.
pub open spec fn space_len(s: Seq<u8>) -> nat {
    if s.len() >= 1 && (0x09 <= s[0] <= 0x0d || s[0] == 0x20) {
        1
    } else if s.len() >= 2 && s[0] == 0xc2 && (s[1] == 0x85 || s[1] == 0xa0) {
        2
    } else if s.len() >= 3 && wide_space(s[0], s[1], s[2]) {
        3
    } else {
        0
    }
}

/// Length of the encoded `White_Space` character at the end, 0 where none stands there.
pub open spec fn space_tail(s: Seq<u8>) -> nat {
    if s.len() >= 1 && space_len(s.skip(s.len() - 1)) == 1 {
        1
    } else if s.len() >= 2 && space_len(s.skip(s.len() - 2)) == 2 {
        2
    } else if s.len() >= 3 && space_len(s.skip(s.len() - 3)) == 3 {
        3
    } else {
        0
    }
}

/// The bytes without leading whitespace.
pub open spec fn trimmed_start(s: Seq<u8>) -> Seq<u8>
    decreases s.len(),
{
    if space_len(s) == 0 {
        s
    } else {
        trimmed_start(s.skip(space_len(s) as int))
    }
}

/// The bytes without trailing whitespace.
pub open spec fn trimmed_end(s: Seq<u8>) -> Seq<u8>
    decreases s.len(),
{
    if space_tail(s) == 0 {
        s
    } else {
        trimmed_end(s.take(s.len() - space_tail(s)))
    }
}

/// The bytes without whitespace at either end.
pub open spec fn trimmed(s: Seq<u8>) -> Seq<u8> {
    trimmed_end(trimmed_start(s))
}

/// Number of bytes before the first whitespace.
pub open spec fn word_len(s: Seq<u8>) -> nat
    decreases s.len(),
{
    if s.len() == 0 || space_len(s) > 0 {
        0
    } else {
        1 + word_len(s.skip(1))
    }
}

/// The runs of bytes between whitespace, in order.
pub open spec fn fields_of(s: Seq<u8>) -> Seq<Seq<u8>>
    decreases s.len(),
{
    let rest = trimmed_start(s);
    if rest.len() == 0 {
        Seq::empty()
    } else {
        proof {
            lemma_trimmed_start(s);
            lemma_word_len(rest);
        }
        seq![rest.take(word_len(rest) as int)] + fields_of(rest.skip(word_len(rest) as int))
    }
}

/// Trimming leaves a part of the bytes that starts with no whitespace.
pub proof fn lemma_trimmed_start(s: Seq<u8>)
    ensures
        trimmed_start(s).len() <= s.len(),
        space_len(trimmed_start(s)) == 0,
    decreases s.len(),
{
    if space_len(s) > 0 {
        lemma_trimmed_start(s.skip(space_len(s) as int));
    }
}

/// A word that starts with no whitespace has at least one byte, and none beyond the end.
pub proof fn lemma_word_len(s: Seq<u8>)
    ensures
        word_len(s) <= s.len(),
        s.len() > 0 && space_len(s) == 0 ==> word_len(s) >= 1,
    decreases s.len(),
{
    if s.len() > 0 {
        lemma_word_len(s.skip(1));
    }
}

/// The bytes of each slice.
pub open spec fn slices(parts: Seq<&[u8]>) -> Seq<Seq<u8>> {
    parts.map_values(|part: &[u8]| part@)
}

/// `bstr::ByteSlice::trim`: the bytes without the characters of Unicode's `White_Space` property
/// at either end.
#[verifier::external_body]
pub(crate) fn trim(bytes: &[u8]) -> (r: &[u8])
    ensures
        r@ == trimmed(bytes@),
{
    ByteSlice::trim(bytes)
}

/// `bstr::ByteSlice::fields`: the non-empty runs between characters of Unicode's `White_Space`
/// property, in order.
#[verifier::external_body]
pub(crate) fn fields(bytes: &[u8]) -> (r: Vec<&[u8]>)
    ensures
        slices(r@) == fields_of(bytes@),
{
    ByteSlice::fields(bytes).collect()
}

/// `bstr::ByteSlice::to_str`: the text that the bytes encode, where they are valid UTF-8.
#[verifier::external_body]
pub(crate) fn to_text(bytes: &[u8]) -> (r: Option<String>)
    ensures
        r is Some <==> valid_utf8(bytes@),
        r matches Some(text) ==> text@ == decode_utf8(bytes@),
{
    match ByteSlice::to_str(bytes) {
        Ok(text) => Some(text.to_owned()),
        Err(_) => None,
    }
}

/// The byte is one of the ten digits.
pub open spec fn digit_byte(b: u8) -> bool {
    0x30 <= b <= 0x39
}

/// Number of digits at the front.
pub open spec fn digit_run(s: Seq<u8>) -> nat
    decreases s.len(),
{
    if s.len() == 0 || !digit_byte(s[0]) {
        0
    } else {
        1 + digit_run(s.skip(1))
    }
}

/// The number that a run of digits stands for, 0 for none.
pub open spec fn run_value(s: Seq<u8>) -> nat
    decreases s.len(),
{
    if s.len() == 0 {
        0
    } else {
        10 * run_value(s.drop_last()) + (s.last() - 0x30) as nat
    }
}

/// The number at the front of the bytes: a sign or none, then the digits up to the first other
/// byte. A sign without digits stands for 0; neither sign nor digit is no number.
pub open spec fn leading_number(s: Seq<u8>) -> Option<int> {
    let signed = s.len() > 0 && (s[0] == 0x2b || s[0] == 0x2d);
    let rest = if signed {
        s.skip(1)
    } else {
        s
    };
    let value = run_value(rest.take(digit_run(rest) as int));
    if !signed && digit_run(rest) == 0 {
        None
    } else if signed && s[0] == 0x2d {
        Some(-(value as int))
    } else {
        Some(value as int)
    }
}

/// The number at the front of the bytes, where it lies within the bounds.
pub open spec fn number_within(s: Seq<u8>, low: int, high: int) -> Option<int> {
    match leading_number(s) {
        Some(value) if low <= value <= high => Some(value),
        _ => None,
    }
}

/// `atoi::atoi`: the number at the front of the bytes, where it fits.
#[verifier::external_body]
pub(crate) fn leading_i64(bytes: &[u8]) -> (r: Option<i64>)
    ensures
        match r {
            Some(value) => leading_number(bytes@) == Some(value as int),
            None => number_within(bytes@, i64::MIN as int, i64::MAX as int) is None,
        },
{
    atoi::atoi::<i64>(bytes)
}

/// The number at the front of the bytes, where it fits 32 unsigned bits.
pub fn leading_u32(bytes: &[u8]) -> (r: Option<u32>)
    ensures
        match r {
            Some(value) => number_within(bytes@, 0, u32::MAX as int) == Some(value as int),
            None => number_within(bytes@, 0, u32::MAX as int) is None,
        },
{
    match leading_i64(bytes) {
        Some(value) => if value >= 0 && value <= 0xffff_ffff {
            Some(value as u32)
        } else {
            None
        },
        None => None,
    }
}

/// The number at the front of the bytes, where it fits 32 signed bits.
pub fn leading_i32(bytes: &[u8]) -> (r: Option<i32>)
    ensures
        match r {
            Some(value) => number_within(bytes@, i32::MIN as int, i32::MAX as int) == Some(
                value as int,
            ),
            None => number_within(bytes@, i32::MIN as int, i32::MAX as int) is None,
        },
{
    match leading_i64(bytes) {
        Some(value) => if value >= -0x8000_0000 && value <= 0x7fff_ffff {
            Some(value as i32)
        } else {
            None
        },
        None => None,
    }
}

/// The byte with an ASCII capital made small.
pub open spec fn lower_byte(b: u8) -> u8 {
    if 0x41 <= b <= 0x5a {
        (b + 0x20) as u8
    } else {
        b
    }
}

/// The bytes with ASCII capitals made small.
pub open spec fn lower_bytes(s: Seq<u8>) -> Seq<u8> {
    s.map_values(|b: u8| lower_byte(b))
}

/// The character with an ASCII capital made small.
pub open spec fn lower_char(c: char) -> char {
    if 'A' <= c <= 'Z' {
        (c as int + 32) as char
    } else {
        c
    }
}

/// The text with ASCII capitals made small.
pub open spec fn lower_text(s: Seq<char>) -> Seq<char> {
    s.map_values(|c: char| lower_char(c))
}

fn lowered_byte(b: u8) -> (r: u8)
    ensures
        r == lower_byte(b),
{
    if b >= 0x41 && b <= 0x5a {
        b + 0x20
    } else {
        b
    }
}

/// Whether the bytes agree with `word` but for ASCII case.
pub fn same_ignoring_case(bytes: &[u8], word: &[u8]) -> (r: bool)
    ensures
        r == (lower_bytes(bytes@) == lower_bytes(word@)),
{
    if bytes.len() != word.len() {
        assert(lower_bytes(bytes@).len() != lower_bytes(word@).len());
        return false;
    }
    let mut i: usize = 0;
    while i < bytes.len()
        invariant
            i <= bytes@.len(),
            bytes@.len() == word@.len(),
            forall|k: int| 0 <= k < i ==> lower_byte(bytes@[k]) == lower_byte(word@[k]),
        decreases bytes@.len() - i,
    {
        if lowered_byte(bytes[i]) != lowered_byte(word[i]) {
            assert(lower_bytes(bytes@)[i as int] != lower_bytes(word@)[i as int]);
            return false;
        }
        i = i + 1;
    }
    assert(lower_bytes(bytes@) =~= lower_bytes(word@));
    true
}

/// `String::push`: the text with the character at its end.
#[verifier::external_body]
pub(crate) fn push_char(text: &mut String, c: char)
    ensures
        final(text)@ == old(text)@.push(c),
{
    text.push(c)
}

fn lowered_char(c: char) -> (r: char)
    ensures
        r == lower_char(c),
{
    if c >= 'A' && c <= 'Z' {
        (c as u8 + 32) as char
    } else {
        c
    }
}

/// The text with ASCII capitals made small.
pub fn lowercase(text: &str) -> (r: String)
    ensures
        r@ == lower_text(text@),
{
    let count: usize = text.unicode_len();
    let mut out = String::new();
    let mut i: usize = 0;
    while i < count
        invariant
            i <= count,
            count == text@.len(),
            out@ == lower_text(text@).take(i as int),
        decreases count - i,
    {
        push_char(&mut out, lowered_char(text.get_char(i)));
        assert(lower_text(text@).take(i + 1) =~= lower_text(text@).take(i as int).push(
            lower_char(text@[i as int]),
        ));
        i = i + 1;
    }
    assert(lower_text(text@).take(i as int) =~= lower_text(text@));
    out
}

/// Equality of `uncased::UncasedStr`: whether the texts agree but for ASCII case.
#[verifier::external_body]
pub(crate) fn uncased_equal(a: &str, b: &str) -> (r: bool)
    ensures
        r == (lower_text(a@) == lower_text(b@)),
{
    UncasedStr::new(a) == UncasedStr::new(b)
}

/// The text starts with the prefix, whatever the case.
pub open spec fn starts_uncased(s: Seq<char>, prefix: Seq<char>) -> bool {
    s.len() >= prefix.len() && lower_text(s.take(prefix.len() as int)) == lower_text(prefix)
}

/// The text ends with the suffix, whatever the case.
pub open spec fn ends_uncased(s: Seq<char>, suffix: Seq<char>) -> bool {
    s.len() >= suffix.len() && lower_text(s.skip(s.len() - suffix.len())) == lower_text(suffix)
}

/// Whether the text starts with the prefix, whatever the case.
pub fn starts_with_uncased(text: &str, prefix: &str) -> (r: bool)
    ensures
        r == starts_uncased(text@, prefix@),
{
    let count: usize = text.unicode_len();
    let wanted: usize = prefix.unicode_len();
    if count < wanted {
        return false;
    }
    let front = text.substring_char(0, wanted);
    assert(front@ =~= text@.take(wanted as int));
    uncased_equal(front, prefix)
}

/// Whether the text ends with the suffix, whatever the case.
pub fn ends_with_uncased(text: &str, suffix: &str) -> (r: bool)
    ensures
        r == ends_uncased(text@, suffix@),
{
    let count: usize = text.unicode_len();
    let wanted: usize = suffix.unicode_len();
    if count < wanted {
        return false;
    }
    let tail = text.substring_char(count - wanted, count);
    assert(tail@ =~= text@.skip(count - wanted));
    uncased_equal(tail, suffix)
}

/// Position of the first `byte`.
pub open spec fn first_at(s: Seq<u8>, byte: u8) -> Option<int>
    decreases s.len(),
{
    if s.len() == 0 {
        None
    } else if s[0] == byte {
        Some(0)
    } else {
        match first_at(s.skip(1), byte) {
            Some(k) => Some(k + 1),
            None => None,
        }
    }
}

/// Position of the last `byte`.
pub open spec fn last_at(s: Seq<u8>, byte: u8) -> Option<int>
    decreases s.len(),
{
    if s.len() == 0 {
        None
    } else if s.last() == byte {
        Some(s.len() - 1)
    } else {
        last_at(s.drop_last(), byte)
    }
}

/// `bstr::ByteSlice::find_byte`: position of the first `byte`.
#[verifier::external_body]
pub(crate) fn find_byte(bytes: &[u8], byte: u8) -> (r: Option<usize>)
    ensures
        match r {
            Some(pos) => pos < bytes@.len() && first_at(bytes@, byte) == Some(pos as int),
            None => first_at(bytes@, byte) is None,
        },
{
    ByteSlice::find_byte(bytes, byte)
}

/// `bstr::ByteSlice::rfind_byte`: position of the last `byte`.
#[verifier::external_body]
pub(crate) fn rfind_byte(bytes: &[u8], byte: u8) -> (r: Option<usize>)
    ensures
        match r {
            Some(pos) => pos < bytes@.len() && last_at(bytes@, byte) == Some(pos as int),
            None => last_at(bytes@, byte) is None,
        },
{
    ByteSlice::rfind_byte(bytes, byte)
}

} // verus!
