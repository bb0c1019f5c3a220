//! Pieces of the override format: comments, escapes, keywords and ranges.

use crate::byte_text::{
    fields, fields_of, find_byte, first_at, leading_i32, leading_u32, lower_bytes, number_within,
    same_ignoring_case, slices, to_text,
};
use crate::model::StaticType;
use crate::overrides::{no_override, StaticOverride, MAX_RANGES};
use vstd::prelude::*;
use vstd::slice::slice_subrange;
use vstd::utf8::{decode_utf8, encode_utf8, valid_utf8};

verus! {

/// The byte `:` that starts a comment.
pub const COLON: u8 = 0x3a;

/// The byte `\` that escapes the next one.
pub const BACKSLASH: u8 = 0x5c;

/// The byte `-` between the ends of a range.
pub const DASH: u8 = 0x2d;

/// Position of the first `:` from `i` on that no backslash escapes, or the end.
pub open spec fn comment_at(s: Seq<u8>, i: int) -> int
    decreases s.len() + 1 - i,
{
    if i >= s.len() {
        s.len() as int
    } else if s[i] == BACKSLASH {
        comment_at(s, i + 2)
    } else if s[i] == COLON {
        i
    } else {
        comment_at(s, i + 1)
    }
}

/// The line without its comment.
pub open spec fn uncommented(line: Seq<u8>, escapes: bool) -> Seq<u8> {
    if escapes {
        line.take(comment_at(line, 0))
    } else {
        match first_at(line, COLON) {
            Some(pos) => line.take(pos),
            None => line,
        }
    }
}

/// The bytes with escapes resolved.
pub open spec fn unescaped(s: Seq<u8>) -> Seq<u8>
    decreases s.len(),
{
    if s.len() == 0 {
        Seq::empty()
    } else if s[0] == BACKSLASH && s.len() > 1 {
        seq![s[1]] + unescaped(s.skip(2))
    } else {
        seq![s[0]] + unescaped(s.skip(1))
    }
}

/// The text of bytes with escapes resolved; empty where that is not UTF-8.
pub open spec fn unescaped_text(s: Seq<u8>) -> Seq<char> {
    if valid_utf8(unescaped(s)) {
        decode_utf8(unescaped(s))
    } else {
        Seq::empty()
    }
}

/// The bytes with every colon and backslash escaped.
pub open spec fn escaped(s: Seq<u8>) -> Seq<u8>
    decreases s.len(),
{
    if s.len() == 0 {
        Seq::empty()
    } else if s[0] == BACKSLASH || s[0] == COLON {
        seq![BACKSLASH, s[0]] + escaped(s.skip(1))
    } else {
        seq![s[0]] + escaped(s.skip(1))
    }
}

/// The end of a line does not depend on what stands before the place where the search starts.
proof fn lemma_comment_shift(s: Seq<u8>, front: Seq<u8>, i: int)
    requires
        0 <= i,
    ensures
        comment_at(front + s, front.len() + i) == front.len() + comment_at(s, i),
    decreases s.len() + 1 - i,
{
    let whole = front + s;
    if i < s.len() {
        assert(whole[front.len() + i] == s[i]);
        if s[i] == BACKSLASH {
            lemma_comment_shift(s, front, i + 2);
            if i + 2 > s.len() {
                assert(comment_at(s, i + 2) == s.len());
            }
        } else if s[i] != COLON {
            lemma_comment_shift(s, front, i + 1);
        }
    }
}

/// What is escaped comes back: it holds no comment, and resolving the escapes gives the bytes.
pub proof fn lemma_escape_round_trip(s: Seq<u8>)
    ensures
        uncommented(escaped(s), true) == escaped(s),
        unescaped(escaped(s)) == s,
    decreases s.len(),
{
    let all = escaped(s);
    if s.len() > 0 {
        let rest = s.skip(1);
        let tail = escaped(rest);
        lemma_escape_round_trip(rest);
        assert(tail.take(comment_at(tail, 0)).len() == tail.len());
        lemma_comment_bound(tail, 0);
        assert(comment_at(tail, 0) == tail.len());
        if s[0] == BACKSLASH || s[0] == COLON {
            let front = seq![BACKSLASH, s[0]];
            assert(all == front + tail);
            lemma_comment_shift(tail, front, 0);
            assert(all[0] == BACKSLASH);
            assert(comment_at(all, 0) == comment_at(all, 2));
            assert(all.skip(2) =~= tail);
            assert(unescaped(all) == seq![s[0]] + rest);
        } else {
            let front = seq![s[0]];
            assert(all == front + tail);
            lemma_comment_shift(tail, front, 0);
            assert(all[0] == s[0]);
            assert(comment_at(all, 0) == comment_at(all, 1));
            assert(all.skip(1) =~= tail);
            assert(unescaped(all) == seq![s[0]] + rest);
        }
        assert(seq![s[0]] + rest =~= s);
        assert(comment_at(all, 0) == all.len());
    }
    assert(all.take(all.len() as int) =~= all);
    if s.len() == 0 {
        assert(unescaped(all) =~= s);
    }
}

/// The search for a comment ends within the line.
proof fn lemma_comment_bound(s: Seq<u8>, i: int)
    requires
        0 <= i,
    ensures
        comment_at(s, i) <= s.len(),
        i <= s.len() ==> i <= comment_at(s, i),
    decreases s.len() + 1 - i,
{
    if i < s.len() {
        if s[i] == BACKSLASH {
            lemma_comment_bound(s, i + 2);
        } else if s[i] != COLON {
            lemma_comment_bound(s, i + 1);
        }
    }
}

/// The line up to its comment. With escapes, `\:` is a literal colon.
pub fn strip_comment(line: &[u8], handle_escapes: bool) -> (r: &[u8])
    ensures
        r@ == uncommented(line@, handle_escapes),
{
    if !handle_escapes {
        return match find_byte(line, COLON) {
            Some(pos) => slice_subrange(line, 0, pos),
            None => line,
        };
    }
    let mut i: usize = 0;
    while i < line.len()
        invariant
            i <= line@.len(),
            handle_escapes,
            comment_at(line@, 0) == comment_at(line@, i as int),
        decreases line@.len() - i,
    {
        if line[i] == BACKSLASH {
            if line.len() - i < 2 {
                assert(comment_at(line@, i + 2) == line@.len());
                i = line.len();
            } else {
                i = i + 2;
            }
        } else if line[i] == COLON {
            return slice_subrange(line, 0, i);
        } else {
            i = i + 1;
        }
    }
    assert(line@.take(line@.len() as int) =~= line@);
    line
}

/// The text of the bytes with `\c` read as `c`; empty where that is not UTF-8.
pub fn unescape(input: &[u8]) -> (r: String)
    ensures
        r@ == unescaped_text(input@),
{
    let mut out: Vec<u8> = Vec::new();
    let mut i: usize = 0;
    assert(input@.skip(0) =~= input@);
    assert(Seq::<u8>::empty() + unescaped(input@) =~= unescaped(input@));
    while i < input.len()
        invariant
            i <= input@.len(),
            out@ + unescaped(input@.skip(i as int)) == unescaped(input@),
        decreases input@.len() - i,
    {
        let ghost rest = input@.skip(i as int);
        let ghost before = out@;
        proof {
            assert(rest[0] == input@[i as int]);
        }
        if input[i] == BACKSLASH && input.len() - i > 1 {
            out.push(input[i + 1]);
            proof {
                assert(rest[1] == input@[i + 1]);
                assert(rest.skip(2) =~= input@.skip(i + 2));
                assert(before + (seq![rest[1]] + unescaped(rest.skip(2))) =~= out@ + unescaped(
                    rest.skip(2),
                ));
            }
            i = i + 2;
        } else {
            out.push(input[i]);
            proof {
                assert(rest.skip(1) =~= input@.skip(i + 1));
                assert(before + (seq![rest[0]] + unescaped(rest.skip(1))) =~= out@ + unescaped(
                    rest.skip(1),
                ));
            }
            i = i + 1;
        }
    }
    assert(input@.skip(i as int).len() == 0);
    assert(out@ =~= unescaped(input@));
    match to_text(out.as_slice()) {
        Some(text) => text,
        None => {
            let empty = String::new();
            assert(empty@ =~= Seq::<char>::empty());
            empty
        },
    }
}

/// The token is the word, whatever the case.
pub open spec fn is_word(token: Seq<u8>, word: Seq<char>) -> bool {
    lower_bytes(token) == lower_bytes(encode_utf8(word))
}

/// The token is the word followed by more, whatever the case of the word. `len` is the length of
/// the word.
pub open spec fn has_prefix(token: Seq<u8>, word: Seq<char>, len: int) -> bool {
    token.len() > len && is_word(token.take(len), word)
}

/// The override after a keyword. An unknown keyword changes nothing.
pub open spec fn after_keyword(o: StaticOverride, token: Seq<u8>) -> StaticOverride {
    if is_word(token, "ignore"@) {
        StaticOverride { ignore: true, ..o }
    } else if is_word(token, "auto"@) {
        StaticOverride { static_type: StaticType::StaticAuto, ..o }
    } else if is_word(token, "near"@) {
        StaticOverride { static_type: StaticType::StaticNear, ..o }
    } else if is_word(token, "far"@) {
        StaticOverride { static_type: StaticType::StaticFar, ..o }
    } else if is_word(token, "very_far"@) {
        StaticOverride { static_type: StaticType::StaticVeryFar, ..o }
    } else if is_word(token, "grass"@) {
        StaticOverride { static_type: StaticType::StaticGrass, ..o }
    } else if has_prefix(token, "grass_"@, 6) {
        StaticOverride {
            static_type: StaticType::StaticGrass,
            density: match number_within(token.skip(6), 0, u32::MAX as int) {
                Some(percent) => Some(
                    if percent < 100 {
                        percent as u32
                    } else {
                        100
                    },
                ),
                None => o.density,
            },
            ..o
        }
    } else if is_word(token, "tree"@) {
        StaticOverride { static_type: StaticType::StaticTree, ..o }
    } else if is_word(token, "building"@) {
        StaticOverride { static_type: StaticType::StaticBuilding, ..o }
    } else if is_word(token, "no_script"@) {
        StaticOverride { no_script: true, ..o }
    } else if is_word(token, "use_old_reduction"@) {
        StaticOverride { simplify: Some(0), ..o }
    } else if has_prefix(token, "reduction_"@, 10) {
        match number_within(token.skip(10), 0, 100) {
            Some(percent) => StaticOverride { simplify: Some(percent as u32), ..o },
            None => o,
        }
    } else {
        o
    }
}

/// The override after the keywords in order: the last one on a matter decides it.
pub open spec fn after_keywords(o: StaticOverride, tokens: Seq<Seq<u8>>) -> StaticOverride
    decreases tokens.len(),
{
    if tokens.len() == 0 {
        o
    } else {
        after_keyword(after_keywords(o, tokens.drop_last()), tokens.last())
    }
}

/// The override that a value of keywords stands for.
pub open spec fn keywords_of(value: Seq<u8>) -> StaticOverride {
    after_keywords(no_override(), fields_of(value))
}

fn prefixed(token: &[u8], word: &str, len: usize) -> (r: bool)
    ensures
        r == has_prefix(token@, word@, len as int),
{
    token.len() > len && same_ignoring_case(slice_subrange(token, 0, len), word.as_bytes())
}

fn apply_keyword(o: StaticOverride, token: &[u8]) -> (r: StaticOverride)
    ensures
        r == after_keyword(o, token@),
{
    let mut result = o;
    if same_ignoring_case(token, "ignore".as_bytes()) {
        result.ignore = true;
    } else if same_ignoring_case(token, "auto".as_bytes()) {
        result.static_type = StaticType::StaticAuto;
    } else if same_ignoring_case(token, "near".as_bytes()) {
        result.static_type = StaticType::StaticNear;
    } else if same_ignoring_case(token, "far".as_bytes()) {
        result.static_type = StaticType::StaticFar;
    } else if same_ignoring_case(token, "very_far".as_bytes()) {
        result.static_type = StaticType::StaticVeryFar;
    } else if same_ignoring_case(token, "grass".as_bytes()) {
        result.static_type = StaticType::StaticGrass;
    } else if prefixed(token, "grass_", 6) {
        result.static_type = StaticType::StaticGrass;
        let digits = slice_subrange(token, 6, token.len());
        assert(digits@ =~= token@.skip(6));
        if let Some(percent) = leading_u32(digits) {
            result.density = Some(
                if percent < 100 {
                    percent
                } else {
                    100
                },
            );
        }
    } else if same_ignoring_case(token, "tree".as_bytes()) {
        result.static_type = StaticType::StaticTree;
    } else if same_ignoring_case(token, "building".as_bytes()) {
        result.static_type = StaticType::StaticBuilding;
    } else if same_ignoring_case(token, "no_script".as_bytes()) {
        result.no_script = true;
    } else if same_ignoring_case(token, "use_old_reduction".as_bytes()) {
        result.simplify = Some(0);
    } else if prefixed(token, "reduction_", 10) {
        let digits = slice_subrange(token, 10, token.len());
        assert(digits@ =~= token@.skip(10));
        if let Some(percent) = leading_u32(digits) {
            if percent <= 100 {
                result.simplify = Some(percent);
            }
        }
    }
    result
}

/// Reads a value of keywords. Unknown keywords are skipped.
pub fn parse_static_keywords(value: &[u8]) -> (r: StaticOverride)
    ensures
        r == keywords_of(value@),
{
    let tokens: Vec<&[u8]> = fields(value);
    let mut result = StaticOverride::default();
    let mut i: usize = 0;
    let ghost parts = slices(tokens@);
    assert(parts.take(0) =~= Seq::empty());
    while i < tokens.len()
        invariant
            i <= tokens@.len(),
            parts == slices(tokens@),
            result == after_keywords(no_override(), parts.take(i as int)),
        decreases tokens@.len() - i,
    {
        result = apply_keyword(result, tokens[i]);
        proof {
            assert(parts.take(i + 1).drop_last() =~= parts.take(i as int));
            assert(parts.take(i + 1).last() == tokens@[i as int]@);
        }
        i = i + 1;
    }
    assert(parts.take(i as int) =~= parts);
    result
}

/// The half-open range that a token stands for.
pub open spec fn range_of(token: Seq<u8>) -> Option<(i32, i32)> {
    let ends = match first_at(token, DASH) {
        Some(pos) => (
            number_within(token.take(pos), i32::MIN as int, i32::MAX as int),
            number_within(token.skip(pos + 1), i32::MIN as int, i32::MAX as int),
        ),
        None => (
            number_within(token, i32::MIN as int, i32::MAX as int),
            number_within(token, i32::MIN as int, i32::MAX as int),
        ),
    };
    match ends {
        (Some(start), Some(end)) if end < i32::MAX => Some((start as i32, (end + 1) as i32)),
        _ => None,
    }
}

/// The ranges among the tokens, in order.
pub open spec fn all_ranges(tokens: Seq<Seq<u8>>) -> Seq<(i32, i32)>
    decreases tokens.len(),
{
    if tokens.len() == 0 {
        Seq::empty()
    } else {
        let before = all_ranges(tokens.drop_last());
        match range_of(tokens.last()) {
            Some(range) => before.push(range),
            None => before,
        }
    }
}

/// The first ranges among the tokens, as many as a group holds.
pub open spec fn ranges_of(tokens: Seq<Seq<u8>>) -> Seq<(i32, i32)> {
    let all = all_ranges(tokens);
    if all.len() > MAX_RANGES {
        all.take(MAX_RANGES as int)
    } else {
        all
    }
}

proof fn lemma_ranges_extend(tokens: Seq<Seq<u8>>, k: int)
    requires
        0 <= k <= tokens.len(),
    ensures
        all_ranges(tokens.take(k)).is_prefix_of(all_ranges(tokens)),
    decreases tokens.len() - k,
{
    let short = all_ranges(tokens.take(k));
    if k < tokens.len() {
        lemma_ranges_extend(tokens, k + 1);
        let next = all_ranges(tokens.take(k + 1));
        assert(tokens.take(k + 1).drop_last() =~= tokens.take(k));
        assert(next =~= short || next =~= short.push(range_of(tokens.take(k + 1).last())->0));
        let whole = all_ranges(tokens);
        assert(short =~= whole.subrange(0, short.len() as int));
    } else {
        assert(tokens.take(k) =~= tokens);
        assert(short =~= short.subrange(0, short.len() as int));
    }
}

fn parse_range(token: &[u8]) -> (r: Option<(i32, i32)>)
    ensures
        r == range_of(token@),
{
    let count: usize = token.len();
    let (start, end): (Option<i32>, Option<i32>) = match find_byte(token, DASH) {
        Some(pos) => {
            let tail = slice_subrange(token, pos + 1, count);
            assert(tail@ =~= token@.skip(pos + 1));
            (leading_i32(slice_subrange(token, 0, pos)), leading_i32(tail))
        },
        None => {
            let value: Option<i32> = leading_i32(token);
            (value, value)
        },
    };
    match (start, end) {
        (Some(low), Some(high)) => if high < i32::MAX {
            Some((low, high + 1))
        } else {
            None
        },
        _ => None,
    }
}

/// Reads ranges from tokens, each `low-high` with both ends in, or one number.
pub fn parse_ranges(tokens: &[&[u8]]) -> (r: Vec<(i32, i32)>)
    ensures
        r@ == ranges_of(slices(tokens@)),
{
    let mut ranges: Vec<(i32, i32)> = Vec::new();
    let ghost parts = slices(tokens@);
    let mut i: usize = 0;
    assert(parts.take(0) =~= Seq::empty());
    while i < tokens.len() && ranges.len() < MAX_RANGES
        invariant
            i <= tokens@.len(),
            parts == slices(tokens@),
            ranges@ == all_ranges(parts.take(i as int)),
            ranges@.len() <= MAX_RANGES,
        decreases tokens@.len() - i,
    {
        proof {
            assert(parts.take(i + 1).drop_last() =~= parts.take(i as int));
            assert(parts.take(i + 1).last() == tokens@[i as int]@);
        }
        if let Some(range) = parse_range(tokens[i]) {
            ranges.push(range);
        }
        i = i + 1;
    }
    proof {
        lemma_ranges_extend(parts, i as int);
        if i == parts.len() {
            assert(parts.take(i as int) =~= parts);
        } else {
            assert(ranges@ =~= all_ranges(parts).take(MAX_RANGES as int));
        }
    }
    ranges
}

} // verus!
