//! Laws of plugin metadata.

use crate::byte_text::lower_text;
use crate::metadata::{directives, flagged, with_names};
use crate::overrides::builder::Merge;
use vstd::prelude::*;

verus! {

/// A list of flags tells exactly which non-empty texts it holds.
proof fn lemma_flagged(list: Seq<Seq<char>>, flag: bool)
    ensures
        forall|i: int|
            0 <= i < flagged(list, flag).len() ==> (#[trigger] flagged(list, flag)[i]).1 == flag
                && list.contains(flagged(list, flag)[i].0) && flagged(list, flag)[i].0.len() > 0,
        forall|text: Seq<char>|
            #![trigger list.contains(text)]
            list.contains(text) && text.len() > 0 ==> flagged(list, flag).contains((text, flag)),
    decreases list.len(),
{
    if list.len() > 0 {
        let front = list.drop_last();
        let before = flagged(front, flag);
        let all = flagged(list, flag);
        lemma_flagged(front, flag);
        assert forall|i: int| 0 <= i < all.len() implies (#[trigger] all[i]).1 == flag
            && list.contains(all[i].0) && all[i].0.len() > 0 by {
            if i < before.len() {
                assert(all[i] == before[i]);
                let k = choose|k: int| 0 <= k < front.len() && front[k] == before[i].0;
                assert(list[k] == before[i].0);
            } else {
                assert(list[list.len() - 1] == all[i].0);
            }
        }
        assert forall|text: Seq<char>|
            #![trigger list.contains(text)]
            list.contains(text) && text.len() > 0 implies all.contains((text, flag)) by {
            let k = choose|k: int| 0 <= k < list.len() && list[k] == text;
            if k < front.len() {
                assert(front[k] == text);
                assert(front.contains(text));
                let i = choose|i: int| 0 <= i < before.len() && before[i] == (text, flag);
                assert(all[i] == (text, flag));
            } else {
                assert(all[all.len() - 1] == (text, flag));
            }
        }
    }
}

/// Directives with one flag leave every key they name with that flag, and no other key touched.
proof fn lemma_names_settled(m: Merge, list: Seq<(Seq<char>, bool)>, key: Seq<char>, flag: bool)
    requires
        forall|i: int| 0 <= i < list.len() ==> (#[trigger] list[i]).1 == flag,
    ensures
        ({
            let names = with_names(m, list).overrides.names;
            if exists|i: int| 0 <= i < list.len() && lower_text((#[trigger] list[i]).0) == key {
                names.dom().contains(key) && names[key] == flag
            } else {
                names.dom().contains(key) == m.overrides.names.dom().contains(key) && names[key]
                    == m.overrides.names[key]
            }
        }),
    decreases list.len(),
{
    if list.len() > 0 {
        let front = list.drop_last();
        assert forall|i: int| 0 <= i < front.len() implies (#[trigger] front[i]).1 == flag by {
            assert(list[i].1 == flag);
        }
        lemma_names_settled(m, front, key, flag);
        assert(list[list.len() - 1].1 == flag);
        if lower_text(list.last().0) != key {
            if exists|i: int| 0 <= i < list.len() && lower_text((#[trigger] list[i]).0) == key {
                let i = choose|i: int|
                    0 <= i < list.len() && lower_text((#[trigger] list[i]).0) == key;
                assert(front[i] == list[i]);
            }
            if exists|i: int| 0 <= i < front.len() && lower_text((#[trigger] front[i]).0) == key {
                let i = choose|i: int|
                    0 <= i < front.len() && lower_text((#[trigger] front[i]).0) == key;
                assert(list[i] == front[i]);
            }
        }
    }
}

/// Directives may be read in one go or in two.
proof fn lemma_names_split(m: Merge, first: Seq<(Seq<char>, bool)>, rest: Seq<(Seq<char>, bool)>)
    ensures
        with_names(m, first + rest) == with_names(with_names(m, first), rest),
    decreases rest.len(),
{
    if rest.len() == 0 {
        assert(first + rest =~= first);
    } else {
        assert((first + rest).drop_last() =~= first + rest.drop_last());
        lemma_names_split(m, first, rest.drop_last());
    }
}

/// Some listed text reads as the key in small letters.
pub open spec fn lists_name(list: Seq<Seq<char>>, key: Seq<char>) -> bool {
    exists|i: int| 0 <= i < list.len() && (#[trigger] list[i]).len() > 0 && lower_text(list[i]) == key
}

proof fn lemma_lists_flagged(list: Seq<Seq<char>>, flag: bool, key: Seq<char>)
    ensures
        lists_name(list, key) <==> exists|i: int|
            0 <= i < flagged(list, flag).len() && lower_text((#[trigger] flagged(list, flag)[i]).0)
                == key,
{
    lemma_flagged(list, flag);
    let all = flagged(list, flag);
    if lists_name(list, key) {
        let i = choose|i: int|
            0 <= i < list.len() && (#[trigger] list[i]).len() > 0 && lower_text(list[i]) == key;
        assert(list.contains(list[i]));
        assert(all.contains((list[i], flag)));
        let k = choose|k: int| 0 <= k < all.len() && all[k] == (list[i], flag);
        assert(lower_text(all[k].0) == key);
    }
    if exists|i: int| 0 <= i < all.len() && lower_text((#[trigger] all[i]).0) == key {
        let i = choose|i: int| 0 <= i < all.len() && lower_text((#[trigger] all[i]).0) == key;
        assert(list.contains(all[i].0));
        let k = choose|k: int| 0 <= k < list.len() && list[k] == all[i].0;
        assert(list[k].len() > 0 && lower_text(list[k]) == key);
    }
}

/// An object that is excluded is disabled, whether or not it is included too; one that is only
/// included is enabled; any other is left as it was.
pub proof fn lemma_exclude_wins(
    m: Merge,
    includes: Seq<Seq<char>>,
    excludes: Seq<Seq<char>>,
    key: Seq<char>,
)
    ensures
        ({
            let before = m.overrides.names;
            let names = with_names(m, directives(includes, excludes)).overrides.names;
            &&& lists_name(excludes, key) ==> names.dom().contains(key) && !names[key]
            &&& lists_name(includes, key) && !lists_name(excludes, key) ==> names.dom().contains(
                key,
            ) && names[key]
            &&& !lists_name(includes, key) && !lists_name(excludes, key) ==> names.dom().contains(
                key,
            ) == before.dom().contains(key) && names[key] == before[key]
        }),
{
    let first = flagged(includes, true);
    let rest = flagged(excludes, false);
    lemma_flagged(includes, true);
    lemma_flagged(excludes, false);
    lemma_names_split(m, first, rest);
    lemma_names_settled(m, first, key, true);
    lemma_names_settled(with_names(m, first), rest, key, false);
    lemma_lists_flagged(includes, true, key);
    lemma_lists_flagged(excludes, false, key);
}

} // verus!
