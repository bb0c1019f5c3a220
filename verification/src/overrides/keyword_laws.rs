//! Laws of keywords: what each says, and which of several decides.

use crate::byte_text::{lower_byte, lower_bytes, number_within};
use crate::model::StaticType;
use crate::overrides::parse::{after_keyword, after_keywords, has_prefix, is_word};
use crate::overrides::{no_override, StaticOverride};
use vstd::prelude::*;
use vstd::utf8::{encode_utf8, is_ascii_chars};

verus! {

/// A token that is a word has its length and its first letter.
pub proof fn lemma_word_bytes(token: Seq<u8>, word: Seq<char>)
    requires
        is_ascii_chars(word),
        word.len() > 0,
        is_word(token, word),
    ensures
        token.len() == word.len(),
        lower_byte(token[0]) == lower_byte(word[0] as u8),
{
    vstd::utf8::is_ascii_chars_encode_utf8(word);
    let bytes = encode_utf8(word);
    assert(lower_bytes(token).len() == lower_bytes(bytes).len());
    assert(lower_bytes(token)[0] == lower_bytes(bytes)[0]);
}

/// The length and the first letter of a word tell the words apart.
proof fn lemma_words_told_apart(token: Seq<u8>)
    ensures
        is_word(token, "ignore"@) ==> token.len() == 6 && lower_byte(token[0]) == 0x69,
        is_word(token, "auto"@) ==> token.len() == 4 && lower_byte(token[0]) == 0x61,
        is_word(token, "near"@) ==> token.len() == 4 && lower_byte(token[0]) == 0x6e,
        is_word(token, "far"@) ==> token.len() == 3 && lower_byte(token[0]) == 0x66,
        is_word(token, "very_far"@) ==> token.len() == 8 && lower_byte(token[0]) == 0x76,
        is_word(token, "grass"@) ==> token.len() == 5 && lower_byte(token[0]) == 0x67,
        is_word(token, "tree"@) ==> token.len() == 4 && lower_byte(token[0]) == 0x74,
        is_word(token, "building"@) ==> token.len() == 8 && lower_byte(token[0]) == 0x62,
        is_word(token, "no_script"@) ==> token.len() == 9 && lower_byte(token[0]) == 0x6e,
        is_word(token, "use_old_reduction"@) ==> token.len() == 17 && lower_byte(token[0]) == 0x75,
        has_prefix(token, "grass_"@, 6) ==> token.len() > 6 && lower_byte(token[0]) == 0x67,
        has_prefix(token, "reduction_"@, 10) ==> token.len() > 10 && lower_byte(token[0]) == 0x72,
{
    reveal_strlit("ignore");
    reveal_strlit("auto");
    reveal_strlit("near");
    reveal_strlit("far");
    reveal_strlit("very_far");
    reveal_strlit("grass");
    reveal_strlit("grass_");
    reveal_strlit("tree");
    reveal_strlit("building");
    reveal_strlit("no_script");
    reveal_strlit("use_old_reduction");
    reveal_strlit("reduction_");
    if is_word(token, "ignore"@) {
        lemma_word_bytes(token, "ignore"@);
    }
    if is_word(token, "auto"@) {
        lemma_word_bytes(token, "auto"@);
    }
    if is_word(token, "near"@) {
        lemma_word_bytes(token, "near"@);
    }
    if is_word(token, "far"@) {
        lemma_word_bytes(token, "far"@);
    }
    if is_word(token, "very_far"@) {
        lemma_word_bytes(token, "very_far"@);
    }
    if is_word(token, "grass"@) {
        lemma_word_bytes(token, "grass"@);
    }
    if is_word(token, "tree"@) {
        lemma_word_bytes(token, "tree"@);
    }
    if is_word(token, "building"@) {
        lemma_word_bytes(token, "building"@);
    }
    if is_word(token, "no_script"@) {
        lemma_word_bytes(token, "no_script"@);
    }
    if is_word(token, "use_old_reduction"@) {
        lemma_word_bytes(token, "use_old_reduction"@);
    }
    if has_prefix(token, "grass_"@, 6) {
        lemma_word_bytes(token.take(6), "grass_"@);
    }
    if has_prefix(token, "reduction_"@, 10) {
        lemma_word_bytes(token.take(10), "reduction_"@);
    }
}

/// The keyword names the class.
pub open spec fn names_class(token: Seq<u8>, class: StaticType) -> bool {
    match class {
        StaticType::StaticAuto => is_word(token, "auto"@),
        StaticType::StaticNear => is_word(token, "near"@),
        StaticType::StaticFar => is_word(token, "far"@),
        StaticType::StaticVeryFar => is_word(token, "very_far"@),
        StaticType::StaticGrass => is_word(token, "grass"@) || has_prefix(token, "grass_"@, 6),
        StaticType::StaticTree => is_word(token, "tree"@),
        StaticType::StaticBuilding => is_word(token, "building"@),
    }
}

/// The keyword says how much grass is kept: what is over the whole counts as the whole.
pub open spec fn names_density(token: Seq<u8>, percent: u32) -> bool {
    &&& has_prefix(token, "grass_"@, 6)
    &&& exists|n: u32|
        number_within(token.skip(6), 0, u32::MAX as int) == Some(n as int) && percent <= 100
            && percent <= n && (percent == n || percent == 100)
}

/// The keyword says how much the mesh is simplified.
pub open spec fn names_reduction(token: Seq<u8>, percent: u32) -> bool {
    ||| is_word(token, "use_old_reduction"@) && percent == 0
    ||| has_prefix(token, "reduction_"@, 10) && percent <= 100 && number_within(
        token.skip(10),
        0,
        100,
    ) == Some(percent as int)
}

/// What one keyword does to what was said before: it decides the matter that it names, and leaves
/// the others.
pub proof fn lemma_keyword_decides(o: StaticOverride, token: Seq<u8>)
    ensures
        ({
            let r = after_keyword(o, token);
            &&& r.ignore <==> o.ignore || is_word(token, "ignore"@)
            &&& r.no_script <==> o.no_script || is_word(token, "no_script"@)
            &&& forall|class: StaticType| #[trigger]
                names_class(token, class) ==> r.static_type == class
            &&& (forall|class: StaticType| !#[trigger] names_class(token, class)) ==> r.static_type
                == o.static_type
            &&& forall|percent: u32| #[trigger]
                names_density(token, percent) ==> r.density == Some(percent)
            &&& (forall|percent: u32| !#[trigger] names_density(token, percent)) ==> r.density
                == o.density
            &&& forall|percent: u32| #[trigger]
                names_reduction(token, percent) ==> r.simplify == Some(percent)
            &&& (forall|percent: u32| !#[trigger] names_reduction(token, percent)) ==> r.simplify
                == o.simplify
        }),
{
    lemma_words_told_apart(token);
    let r = after_keyword(o, token);
    if forall|class: StaticType| !#[trigger] names_class(token, class) {
        assert(!names_class(token, StaticType::StaticAuto));
        assert(!names_class(token, StaticType::StaticNear));
        assert(!names_class(token, StaticType::StaticFar));
        assert(!names_class(token, StaticType::StaticVeryFar));
        assert(!names_class(token, StaticType::StaticGrass));
        assert(!names_class(token, StaticType::StaticTree));
        assert(!names_class(token, StaticType::StaticBuilding));
    }
    if forall|percent: u32| !#[trigger] names_density(token, percent) {
        if has_prefix(token, "grass_"@, 6) {
            let said = number_within(token.skip(6), 0, u32::MAX as int);
            if said is Some {
                let n = said->0 as u32;
                assert(number_within(token.skip(6), 0, u32::MAX as int) == Some(n as int));
                assert(names_density(
                    token,
                    if n < 100 {
                        n
                    } else {
                        100
                    },
                ));
            }
        }
    }
    if forall|percent: u32| !#[trigger] names_reduction(token, percent) {
        assert(!names_reduction(token, 0));
        if has_prefix(token, "reduction_"@, 10) {
            let said = number_within(token.skip(10), 0, 100);
            if said is Some {
                assert(names_reduction(token, said->0 as u32));
            }
        }
    }
}

/// Of several keywords, any says to ignore the mesh or its script, and the last that names a class
/// decides it.
pub proof fn lemma_last_keyword_decides(tokens: Seq<Seq<u8>>, i: int, class: StaticType)
    requires
        0 <= i < tokens.len(),
        names_class(tokens[i], class),
        forall|j: int, other: StaticType|
            i < j < tokens.len() ==> !#[trigger] names_class(tokens[j], other),
    ensures
        after_keywords(no_override(), tokens).static_type == class,
    decreases tokens.len(),
{
    let front = tokens.drop_last();
    lemma_keyword_decides(after_keywords(no_override(), front), tokens.last());
    if i < front.len() {
        assert forall|j: int, other: StaticType| i < j < front.len() implies !#[trigger] names_class(
            front[j],
            other,
        ) by {
            assert(!names_class(tokens[j], other));
        }
        lemma_last_keyword_decides(front, i, class);
        assert forall|other: StaticType| !#[trigger] names_class(tokens.last(), other) by {
            assert(!names_class(tokens[tokens.len() - 1], other));
        }
    }
}

/// A mesh is ignored where any keyword says so, and its script where any keyword says that; where no
/// keyword names a class, none is set.
pub proof fn lemma_any_keyword_ignores(tokens: Seq<Seq<u8>>)
    ensures
        ({
            let r = after_keywords(no_override(), tokens);
            &&& r.ignore <==> exists|i: int|
                0 <= i < tokens.len() && is_word(#[trigger] tokens[i], "ignore"@)
            &&& r.no_script <==> exists|i: int|
                0 <= i < tokens.len() && is_word(#[trigger] tokens[i], "no_script"@)
            &&& (forall|i: int, class: StaticType|
                0 <= i < tokens.len() ==> !#[trigger] names_class(tokens[i], class))
                ==> r.static_type == no_override().static_type
        }),
    decreases tokens.len(),
{
    if tokens.len() > 0 {
        let front = tokens.drop_last();
        let last = tokens.last();
        lemma_any_keyword_ignores(front);
        lemma_keyword_decides(after_keywords(no_override(), front), last);
        assert(tokens[tokens.len() - 1] == last);
        assert(forall|i: int| 0 <= i < front.len() ==> front[i] == tokens[i]);
        assert((exists|i: int| 0 <= i < tokens.len() && is_word(#[trigger] tokens[i], "ignore"@))
            <==> (is_word(last, "ignore"@) || exists|i: int|
            0 <= i < front.len() && is_word(#[trigger] front[i], "ignore"@))) by {
            if exists|i: int| 0 <= i < front.len() && is_word(#[trigger] front[i], "ignore"@) {
                let i = choose|i: int|
                    0 <= i < front.len() && is_word(#[trigger] front[i], "ignore"@);
                assert(is_word(tokens[i], "ignore"@));
            }
        }
        assert((exists|i: int| 0 <= i < tokens.len() && is_word(#[trigger] tokens[i], "no_script"@))
            <==> (is_word(last, "no_script"@) || exists|i: int|
            0 <= i < front.len() && is_word(#[trigger] front[i], "no_script"@))) by {
            if exists|i: int| 0 <= i < front.len() && is_word(#[trigger] front[i], "no_script"@) {
                let i = choose|i: int|
                    0 <= i < front.len() && is_word(#[trigger] front[i], "no_script"@);
                assert(is_word(tokens[i], "no_script"@));
            }
        }
        if forall|i: int, class: StaticType|
            0 <= i < tokens.len() ==> !#[trigger] names_class(tokens[i], class) {
            assert forall|i: int, class: StaticType|
                0 <= i < front.len() implies !#[trigger] names_class(front[i], class) by {
                assert(!names_class(tokens[i], class));
            }
            assert forall|class: StaticType| !#[trigger] names_class(last, class) by {
                assert(!names_class(tokens[tokens.len() - 1], class));
            }
        }
    }
}

} // verus!
