//! Names of atlas pages.

use crate::atlas::sizing::AtlasDomain;
use crate::atlas::types::{ALPHA_ATLAS_PREFIX, OPAQUE_ATLAS_PREFIX};
use crate::decimal::{
    chars_of, decimal, is_digit, lemma_decimal, lemma_decimal_injective, parse_numeral,
    push_decimal,
};
use vstd::prelude::*;

verus! {

/// Directory of the pages, relative to the output root.
pub const ATLAS_PAGE_DIRECTORY: &'static str = "statics\\textures\\";

/// Name of page `page`: the bare prefix for the first page, numbered for the others.
pub open spec fn page_name(prefix: Seq<char>, page: nat) -> Seq<char> {
    if page == 0 {
        prefix + ".dds"@
    } else {
        prefix + "_"@ + decimal(page) + ".dds"@
    }
}

/// Prefix of a family's page names.
pub open spec fn prefix_of(domain: AtlasDomain) -> Seq<char> {
    match domain {
        AtlasDomain::Opaque => OPAQUE_ATLAS_PREFIX@,
        AtlasDomain::Alpha => ALPHA_ATLAS_PREFIX@,
    }
}

/// Path of a family's page, relative to the output root.
pub open spec fn page_path(domain: AtlasDomain, page: nat) -> Seq<char> {
    ATLAS_PAGE_DIRECTORY@ + page_name(prefix_of(domain), page)
}

/// Returns the texture filename of an atlas page.
///
/// Subset textures are resolved relative to the page directory, so the name stands alone. Page 0
/// uses the bare `<prefix>.dds` name; subsequent pages append `_<index>`.
pub fn atlas_page_string(prefix: &str, page_index: usize) -> (r: String)
    ensures
        r@ == page_name(prefix@, page_index as nat),
{
    let mut name = prefix.to_owned();
    if page_index != 0 {
        name.append("_");
        push_decimal(&mut name, page_index as u64);
    }
    name.append(".dds");
    name
}

/// The family's page name prefix.
pub fn domain_prefix(domain: AtlasDomain) -> (r: &'static str)
    ensures
        r@ == prefix_of(domain),
{
    match domain {
        AtlasDomain::Opaque => OPAQUE_ATLAS_PREFIX,
        AtlasDomain::Alpha => ALPHA_ATLAS_PREFIX,
    }
}

/// Returns the path of an atlas page, relative to the output root.
pub fn atlas_page_relative_path(domain: AtlasDomain, page_index: usize) -> (r: String)
    ensures
        r@ == page_path(domain, page_index as nat),
{
    let mut path = ATLAS_PAGE_DIRECTORY.to_owned();
    path.append(atlas_page_string(domain_prefix(domain), page_index).as_str());
    path
}

/// The characters from `at` on begin with `part`.
fn begins_at(chars: &[char], at: usize, part: &[char]) -> (r: bool)
    requires
        at <= chars@.len(),
    ensures
        r == (at + part@.len() <= chars@.len() && chars@.subrange(at as int, at + part@.len())
            == part@),
{
    let total: usize = chars.len();
    if part.len() > total - at {
        return false;
    }
    let mut i: usize = 0;
    while i < part.len()
        invariant
            i <= part@.len(),
            total == chars@.len(),
            at + part@.len() <= total,
            forall|k: int| 0 <= k < i ==> #[trigger] chars@[at + k] == part@[k],
        decreases part@.len() - i,
    {
        if chars[at + i] != part[i] {
            proof {
                let window = chars@.subrange(at as int, at + part@.len());
                assert(window[i as int] == chars@[at + i]);
            }
            return false;
        }
        i = i + 1;
    }
    assert(chars@.subrange(at as int, at + part@.len()) =~= part@) by {
        assert forall|k: int| 0 <= k < part@.len() implies chars@.subrange(
            at as int,
            at + part@.len(),
        )[k] == part@[k] by {
            assert(chars@[at + k] == part@[k]);
        }
    }
    true
}

/// The text is the name of some page whose number fits 32 bits.
pub open spec fn is_page_name(name: Seq<char>, prefix: Seq<char>) -> bool {
    exists|page: u32| name == #[trigger] page_name(prefix, page as nat)
}

/// Whether the characters from `at` on are the name of a page with the prefix.
///
/// The page number has no leading zeros, is positive, and fits 32 bits; the first page carries no
/// number.
fn atlas_page_name_matches(chars: &[char], at: usize, prefix: &str) -> (r: bool)
    requires
        at <= chars@.len(),
    ensures
        r == is_page_name(chars@.skip(at as int), prefix@),
{
    let prefix_chars = chars_of(prefix);
    let suffix = chars_of(".dds");
    let underscore = chars_of("_");
    let ghost name = chars@.skip(at as int);
    proof {
        reveal_strlit(".dds");
        reveal_strlit("_");
        assert forall|page: u32| name == #[trigger] page_name(prefix@, page as nat) implies
            prefix@.len() + 4 <= name.len() && name.subrange(0, prefix@.len() as int) == prefix@ by {
            lemma_decimal(page as nat);
            assert(name.subrange(0, prefix@.len() as int) =~= prefix@);
        }
        if prefix@.len() <= name.len() {
            assert(name.subrange(0, prefix@.len() as int) =~= chars@.subrange(
                at as int,
                at + prefix@.len(),
            ));
        }
    }
    if !begins_at(chars, at, &prefix_chars) {
        return false;
    }
    let end: usize = chars.len();
    let rest: usize = at + prefix_chars.len();
    let bare = end - rest == suffix.len() && begins_at(chars, rest, &suffix);
    let ghost tail = chars@.skip(rest as int);
    proof {
        assert(name =~= prefix@ + tail);
        if end - rest == 4 {
            assert(tail =~= chars@.subrange(rest as int, rest + 4));
        }
        assert forall|page: u32| name == #[trigger] page_name(prefix@, page as nat) implies tail
            == page_name(prefix@, page as nat).skip(prefix@.len() as int) by {
            assert(name.skip(prefix@.len() as int) =~= tail);
        }
    }
    if bare {
        assert(name =~= page_name(prefix@, 0u32 as nat));
        return true;
    }
    proof {
        assert forall|page: u32| name == #[trigger] page_name(prefix@, page as nat) implies page > 0
            && tail == "_"@ + decimal(page as nat) + ".dds"@ by {
            let whole = page_name(prefix@, page as nat);
            if page == 0 {
                assert(whole.skip(prefix@.len() as int) =~= ".dds"@);
                assert(tail =~= chars@.subrange(rest as int, rest + 4));
            } else {
                assert(whole.skip(prefix@.len() as int) =~= "_"@ + decimal(page as nat)
                    + ".dds"@);
            }
        }
    }
    if end - rest < 5 {
        proof {
            assert forall|page: u32| name != #[trigger] page_name(prefix@, page as nat) by {
                lemma_decimal(page as nat);
            }
        }
        return false;
    }
    let ghost digits = chars@.subrange(rest + 1, end - 4);
    proof {
        assert(tail =~= chars@.subrange(rest as int, rest + 1) + digits + chars@.subrange(
            end - 4,
            end as int,
        ));
        assert forall|page: u32| name == #[trigger] page_name(prefix@, page as nat) implies
            chars@.subrange(rest as int, rest + 1) == "_"@ && chars@.subrange(end - 4, end as int)
            == ".dds"@ && digits == decimal(page as nat) by {
            let whole = "_"@ + decimal(page as nat) + ".dds"@;
            assert(tail == whole);
            assert(chars@.subrange(rest as int, rest + 1) =~= tail.subrange(0, 1));
            assert(whole.subrange(0, 1) =~= "_"@);
            assert(chars@.subrange(end - 4, end as int) =~= tail.subrange(
                tail.len() - 4,
                tail.len() as int,
            ));
            assert(whole.subrange(whole.len() - 4, whole.len() as int) =~= ".dds"@);
            assert(digits =~= tail.subrange(1, tail.len() - 4));
            assert(whole.subrange(1, whole.len() - 4) =~= decimal(page as nat));
        }
    }
    if !begins_at(chars, rest, &underscore) || !begins_at(chars, end - 4, &suffix) {
        return false;
    }
    match parse_numeral(chars, rest + 1, end - 4) {
        Some(page) => {
            assert(name =~= page_name(prefix@, page as nat));
            true
        },
        None => {
            proof {
                assert forall|page: u32| name != #[trigger] page_name(prefix@, page as nat) by {
                    if name == page_name(prefix@, page as nat) {
                        assert(page > 0);
                        assert(digits == decimal(page as nat));
                    }
                }
            }
            false
        },
    }
}

/// The path is that of some page of the family.
pub open spec fn is_page_path(path: Seq<char>, domain: AtlasDomain) -> bool {
    exists|page: u32| path == #[trigger] page_path(domain, page as nat)
}

/// No path names pages of both families.
pub proof fn lemma_families_apart(path: Seq<char>)
    requires
        is_page_path(path, AtlasDomain::Opaque),
    ensures
        !is_page_path(path, AtlasDomain::Alpha),
{
    if is_page_path(path, AtlasDomain::Alpha) {
        let a = choose|page: u32| path == #[trigger] page_path(AtlasDomain::Alpha, page as nat);
        let o = choose|page: u32| path == #[trigger] page_path(AtlasDomain::Opaque, page as nat);
        reveal_strlit("_mge_xe_atlas");
        reveal_strlit("_mge_xe_atlas_alpha");
        reveal_strlit(".dds");
        reveal_strlit("_");
        lemma_decimal(o as nat);
        let d = ATLAS_PAGE_DIRECTORY@.len() as int;
        let alpha = page_path(AtlasDomain::Alpha, a as nat);
        let opaque = page_path(AtlasDomain::Opaque, o as nat);
        assert(alpha[d + 13] == '_');
        assert(alpha[d + 14] == 'a');
        if o == 0 {
            assert(opaque[d + 13] == '.');
        } else {
            assert(opaque[d + 14] == decimal(o as nat)[0]);
            assert(is_digit(decimal(o as nat)[0]));
        }
    }
}

/// Classifies one committed relative path as an opaque or alpha atlas page.
///
/// Accepts only the names produced by [`atlas_page_string`]: bare `prefix.dds` or numbered
/// `prefix_N.dds`. Alpha is matched before opaque because the opaque prefix begins the alpha one.
pub fn classify_atlas_page_path(path: &str) -> (r: Option<AtlasDomain>)
    ensures
        forall|domain: AtlasDomain| r == Some(domain) <==> #[trigger] is_page_path(path@, domain),
{
    let chars = chars_of(path);
    let directory = chars_of(ATLAS_PAGE_DIRECTORY);
    let ghost n = ATLAS_PAGE_DIRECTORY@.len() as int;
    proof {
        assert forall|domain: AtlasDomain, page: u32| path@ == #[trigger] page_path(
            domain,
            page as nat,
        ) implies n <= path@.len() && path@.subrange(0, n) == ATLAS_PAGE_DIRECTORY@ && path@.skip(n)
            == page_name(prefix_of(domain), page as nat) by {
            let whole = page_path(domain, page as nat);
            assert(whole.subrange(0, n) =~= ATLAS_PAGE_DIRECTORY@);
            assert(whole.skip(n) =~= page_name(prefix_of(domain), page as nat));
        }
    }
    if !begins_at(&chars, 0, &directory) {
        assert forall|domain: AtlasDomain| !#[trigger] is_page_path(path@, domain) by {
            if is_page_path(path@, domain) {
                let page = choose|page: u32| path@ == #[trigger] page_path(domain, page as nat);
                assert(path@.subrange(0, n) == ATLAS_PAGE_DIRECTORY@);
            }
        }
        return None;
    }
    let at: usize = directory.len();
    proof {
        assert(path@ =~= ATLAS_PAGE_DIRECTORY@ + path@.skip(n));
        assert forall|domain: AtlasDomain| #[trigger] is_page_path(path@, domain) <==> is_page_name(
            path@.skip(n),
            prefix_of(domain),
        ) by {
            if is_page_path(path@, domain) {
                let page = choose|page: u32| path@ == #[trigger] page_path(domain, page as nat);
                assert(path@.skip(n) == page_name(prefix_of(domain), page as nat));
            }
            if is_page_name(path@.skip(n), prefix_of(domain)) {
                let page = choose|page: u32|
                    path@.skip(n) == #[trigger] page_name(prefix_of(domain), page as nat);
                assert(path@ == page_path(domain, page as nat));
            }
        }
        if is_page_path(path@, AtlasDomain::Opaque) {
            lemma_families_apart(path@);
        }
    }
    if atlas_page_name_matches(&chars, at, ALPHA_ATLAS_PREFIX) {
        return Some(AtlasDomain::Alpha);
    }
    if atlas_page_name_matches(&chars, at, OPAQUE_ATLAS_PREFIX) {
        return Some(AtlasDomain::Opaque);
    }
    None
}

/// Every page of a family is told apart from every other page by its path.
pub proof fn lemma_page_paths_distinct(
    a: AtlasDomain,
    b: AtlasDomain,
    page: u32,
    other: u32,
)
    requires
        page_path(a, page as nat) == page_path(b, other as nat),
    ensures
        a == b,
        page == other,
{
    let path = page_path(a, page as nat);
    assert(is_page_path(path, a));
    assert(is_page_path(path, b));
    if a != b {
        assert(is_page_path(path, AtlasDomain::Opaque));
        assert(is_page_path(path, AtlasDomain::Alpha));
        lemma_families_apart(path);
    }
    let prefix = prefix_of(a);
    let n = ATLAS_PAGE_DIRECTORY@.len() as int;
    reveal_strlit(".dds");
    reveal_strlit("_");
    lemma_decimal(page as nat);
    lemma_decimal(other as nat);
    let x = page_name(prefix, page as nat);
    let y = page_name(prefix, other as nat);
    assert(x =~= path.skip(n));
    assert(y =~= page_path(b, other as nat).skip(n));
    let p = prefix.len() as int;
    if page == 0 || other == 0 {
        if page != other {
            assert(x[p] == '.' || y[p] == '.');
            assert(x[p] == '_' || y[p] == '_');
        }
    } else {
        assert(x.subrange(p + 1, x.len() - 4) =~= decimal(page as nat));
        assert(y.subrange(p + 1, y.len() - 4) =~= decimal(other as nat));
        lemma_decimal_injective(page as nat, other as nat);
    }
}

} // verus!
