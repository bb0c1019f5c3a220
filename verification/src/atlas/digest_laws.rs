//! Laws of fingerprinted bytes: they tell layouts and bindings apart.

use crate::atlas::digest::{
    LAYOUT_DIGEST_TAG, flag_byte, framed_keys, group_bytes, groups_bytes, layout_bytes,
};
use crate::atlas::group::PreparedAtlasGroup;
use crate::atlas::sizing::AtlasDomain;
use crate::atlas::types::UvBound;
use crate::atlas::uv::{binding_bytes, bindings_bytes, family_bytes};
use crate::atlas::write::prefix_of;
use crate::bytes::{framed, from_low_bytes, lemma_low_bytes_len, lemma_low_bytes_round_trip, low_bytes};
use crate::text::lemma_utf8_injective;
use vstd::arithmetic::power::pow;
use vstd::prelude::*;
use vstd::utf8::encode_utf8;

verus! {

/// What follows the same number of bytes is the same.
proof fn lemma_same_tail(a: Seq<u8>, x: Seq<u8>, b: Seq<u8>, y: Seq<u8>)
    requires
        a.len() == b.len(),
        a + x == b + y,
    ensures
        a == b,
        x == y,
{
    let whole = a + x;
    let n = a.len() as int;
    assert(whole.len() == (b + y).len());
    assert(a =~= whole.subrange(0, n));
    assert(b =~= (b + y).subrange(0, n));
    assert(x =~= whole.subrange(n, whole.len() as int));
    assert(y =~= (b + y).subrange(n, whole.len() as int));
}

/// Numbers in a fixed number of bytes are told apart, whatever follows.
proof fn lemma_numbers_apart(m: nat, n: nat, count: nat, x: Seq<u8>, y: Seq<u8>)
    requires
        m < pow(256, count),
        n < pow(256, count),
        low_bytes(m, count) + x == low_bytes(n, count) + y,
    ensures
        m == n,
        x == y,
{
    lemma_low_bytes_round_trip(m, count);
    lemma_low_bytes_round_trip(n, count);
    lemma_same_tail(low_bytes(m, count), x, low_bytes(n, count), y);
    assert(from_low_bytes(low_bytes(m, count)) == from_low_bytes(low_bytes(n, count)));
}

proof fn lemma_words(n: nat)
    ensures
        n <= u32::MAX ==> n < pow(256, 4),
        n <= u64::MAX ==> n < pow(256, 8),
{
    reveal(pow);
    assert(pow(256, 0) == 1);
    assert(pow(256, 1) == 256 * pow(256, 0));
    assert(pow(256, 2) == 256 * pow(256, 1));
    assert(pow(256, 3) == 256 * pow(256, 2));
    assert(pow(256, 4) == 256 * pow(256, 3));
    assert(pow(256, 5) == 256 * pow(256, 4));
    assert(pow(256, 6) == 256 * pow(256, 5));
    assert(pow(256, 7) == 256 * pow(256, 6));
    assert(pow(256, 8) == 256 * pow(256, 7));
}

/// Words are told apart by their bytes.
pub proof fn lemma_words_apart(m: u32, n: u32)
    requires
        low_bytes(m as nat, 4) == low_bytes(n as nat, 4),
    ensures
        m == n,
{
    lemma_words(m as nat);
    lemma_words(n as nat);
    lemma_low_bytes_round_trip(m as nat, 4);
    lemma_low_bytes_round_trip(n as nat, 4);
}

/// Framed bytes are told apart, whatever follows.
pub proof fn lemma_frames_apart(a: Seq<u8>, b: Seq<u8>, x: Seq<u8>, y: Seq<u8>)
    requires
        a.len() <= u64::MAX,
        b.len() <= u64::MAX,
        framed(a) + x == framed(b) + y,
    ensures
        a == b,
        x == y,
{
    lemma_words(a.len());
    lemma_words(b.len());
    assert(framed(a) + x =~= low_bytes(a.len(), 8) + (a + x));
    assert(framed(b) + y =~= low_bytes(b.len(), 8) + (b + y));
    lemma_numbers_apart(a.len(), b.len(), 8, a + x, b + y);
    lemma_same_tail(a, x, b, y);
}

// ---------------------------------------------------------------------------------------------
// Layouts
// ---------------------------------------------------------------------------------------------

/// The texts of the group can be held in memory.
pub open spec fn texts_fit(group: PreparedAtlasGroup) -> bool {
    &&& encode_utf8(group.group_key@).len() <= u64::MAX
    &&& group.logical_keys@.len() <= u64::MAX
    &&& forall|k: int|
        0 <= k < group.logical_keys@.len() ==> encode_utf8(
            (#[trigger] group.logical_keys@[k])@,
        ).len() <= u64::MAX
}

/// The groups lay out the same: the same keys, the same size, and the same part of an image.
pub open spec fn same_layout(a: PreparedAtlasGroup, b: PreparedAtlasGroup) -> bool {
    &&& a.group_key@ == b.group_key@
    &&& a.logical_keys@.len() == b.logical_keys@.len()
    &&& forall|k: int|
        0 <= k < a.logical_keys@.len() ==> (#[trigger] a.logical_keys@[k])@
            == b.logical_keys@[k]@
    &&& a.item.w == b.item.w && a.item.h == b.item.h
    &&& a.item.source->0 == b.item.source->0
    &&& a.item.source_size->0 == b.item.source_size->0
    &&& a.item.trimmed == b.item.trimmed
}

proof fn lemma_keys_from_front(keys: Seq<String>, end: int)
    requires
        0 < end <= keys.len(),
    ensures
        framed_keys(keys, end) == framed(encode_utf8(keys[0]@)) + framed_keys(
            keys.skip(1),
            end - 1,
        ),
    decreases end,
{
    let first = framed(encode_utf8(keys[0]@));
    if end == 1 {
        assert(framed_keys(keys, 0) =~= Seq::<u8>::empty());
        assert(framed_keys(keys.skip(1), 0) =~= Seq::<u8>::empty());
        assert(framed_keys(keys, 1) =~= first + framed_keys(keys.skip(1), 0));
    } else {
        lemma_keys_from_front(keys, end - 1);
        assert(keys.skip(1)[end - 2] == keys[end - 1]);
        assert(framed_keys(keys, end) =~= first + framed_keys(keys.skip(1), end - 1));
    }
}

proof fn lemma_keys_apart(a: Seq<String>, b: Seq<String>, x: Seq<u8>, y: Seq<u8>)
    requires
        a.len() == b.len(),
        forall|k: int|
            0 <= k < a.len() ==> encode_utf8((#[trigger] a[k])@).len() <= u64::MAX,
        forall|k: int|
            0 <= k < b.len() ==> encode_utf8((#[trigger] b[k])@).len() <= u64::MAX,
        framed_keys(a, a.len() as int) + x == framed_keys(b, b.len() as int) + y,
    ensures
        forall|k: int| 0 <= k < a.len() ==> (#[trigger] a[k])@ == b[k]@,
        x == y,
    decreases a.len(),
{
    let n = a.len() as int;
    if n == 0 {
        assert(framed_keys(a, n) + x =~= x);
        assert(framed_keys(b, n) + y =~= y);
    } else {
        lemma_keys_from_front(a, n);
        lemma_keys_from_front(b, n);
        let a1 = a.skip(1);
        let b1 = b.skip(1);
        let p = framed_keys(a1, n - 1) + x;
        let q = framed_keys(b1, n - 1) + y;
        assert(framed_keys(a, n) + x =~= framed(encode_utf8(a[0]@)) + p);
        assert(framed_keys(b, n) + y =~= framed(encode_utf8(b[0]@)) + q);
        lemma_frames_apart(encode_utf8(a[0]@), encode_utf8(b[0]@), p, q);
        lemma_utf8_injective(a[0]@, b[0]@);
        assert forall|k: int| 0 <= k < a1.len() implies encode_utf8((#[trigger] a1[k])@).len()
            <= u64::MAX by {
            assert(a1[k] == a[k + 1]);
        }
        assert forall|k: int| 0 <= k < b1.len() implies encode_utf8((#[trigger] b1[k])@).len()
            <= u64::MAX by {
            assert(b1[k] == b[k + 1]);
        }
        lemma_keys_apart(a1, b1, x, y);
        assert forall|k: int| 0 <= k < n implies (#[trigger] a[k])@ == b[k]@ by {
            if k > 0 {
                assert(a1[k - 1] == a[k] && b1[k - 1] == b[k]);
            }
        }
    }
}

/// The numbers of a group, one after the other.
spec fn number_bytes(group: PreparedAtlasGroup, rest: Seq<u8>) -> Seq<u8> {
    let item = group.item;
    let source = item.source->0;
    let size = item.source_size->0;
    low_bytes(item.w as nat, 4) + (low_bytes(item.h as nat, 4) + (low_bytes(source.x as nat, 4) + (
    low_bytes(source.y as nat, 4) + (low_bytes(source.w as nat, 4) + (low_bytes(
        source.h as nat,
        4,
    ) + (low_bytes(size.0 as nat, 4) + (low_bytes(size.1 as nat, 4) + (seq![
        flag_byte(item.trimmed),
    ] + rest))))))))
}

proof fn lemma_word_apart(m: u32, n: u32, x: Seq<u8>, y: Seq<u8>)
    requires
        low_bytes(m as nat, 4) + x == low_bytes(n as nat, 4) + y,
    ensures
        m == n,
        x == y,
{
    lemma_words(m as nat);
    lemma_words(n as nat);
    lemma_numbers_apart(m as nat, n as nat, 4, x, y);
}

proof fn lemma_group_parts(group: PreparedAtlasGroup, rest: Seq<u8>)
    ensures
        group_bytes(group) + rest == framed(encode_utf8(group.group_key@)) + (low_bytes(
            group.logical_keys@.len(),
            8,
        ) + (framed_keys(group.logical_keys@, group.logical_keys@.len() as int) + number_bytes(
            group,
            rest,
        ))),
{
    assert(group_bytes(group) + rest =~= framed(encode_utf8(group.group_key@)) + (low_bytes(
        group.logical_keys@.len(),
        8,
    ) + (framed_keys(group.logical_keys@, group.logical_keys@.len() as int) + number_bytes(
        group,
        rest,
    ))));
}

proof fn lemma_group_apart(
    a: PreparedAtlasGroup,
    b: PreparedAtlasGroup,
    x: Seq<u8>,
    y: Seq<u8>,
)
    requires
        texts_fit(a),
        texts_fit(b),
        group_bytes(a) + x == group_bytes(b) + y,
    ensures
        same_layout(a, b),
        x == y,
{
    lemma_group_parts(a, x);
    lemma_group_parts(b, y);
    let ka = framed_keys(a.logical_keys@, a.logical_keys@.len() as int) + number_bytes(a, x);
    let kb = framed_keys(b.logical_keys@, b.logical_keys@.len() as int) + number_bytes(b, y);
    lemma_frames_apart(
        encode_utf8(a.group_key@),
        encode_utf8(b.group_key@),
        low_bytes(a.logical_keys@.len(), 8) + ka,
        low_bytes(b.logical_keys@.len(), 8) + kb,
    );
    lemma_utf8_injective(a.group_key@, b.group_key@);
    lemma_words(a.logical_keys@.len());
    lemma_words(b.logical_keys@.len());
    lemma_numbers_apart(a.logical_keys@.len(), b.logical_keys@.len(), 8, ka, kb);
    lemma_keys_apart(a.logical_keys@, b.logical_keys@, number_bytes(a, x), number_bytes(b, y));
    lemma_group_numbers_apart(a, b, x, y);
}

proof fn lemma_group_numbers_apart(
    a: PreparedAtlasGroup,
    b: PreparedAtlasGroup,
    x: Seq<u8>,
    y: Seq<u8>,
)
    requires
        number_bytes(a, x) == number_bytes(b, y),
    ensures
        a.item.w == b.item.w && a.item.h == b.item.h,
        a.item.source->0 == b.item.source->0,
        a.item.source_size->0 == b.item.source_size->0,
        a.item.trimmed == b.item.trimmed,
        x == y,
{
    let s = a.item.source->0;
    let t = b.item.source->0;
    let m = a.item.source_size->0;
    let n = b.item.source_size->0;
    let a8 = seq![flag_byte(a.item.trimmed)] + x;
    let b8 = seq![flag_byte(b.item.trimmed)] + y;
    let a7 = low_bytes(m.1 as nat, 4) + a8;
    let b7 = low_bytes(n.1 as nat, 4) + b8;
    let a6 = low_bytes(m.0 as nat, 4) + a7;
    let b6 = low_bytes(n.0 as nat, 4) + b7;
    let a5 = low_bytes(s.h as nat, 4) + a6;
    let b5 = low_bytes(t.h as nat, 4) + b6;
    let a4 = low_bytes(s.w as nat, 4) + a5;
    let b4 = low_bytes(t.w as nat, 4) + b5;
    let a3 = low_bytes(s.y as nat, 4) + a4;
    let b3 = low_bytes(t.y as nat, 4) + b4;
    let a2 = low_bytes(s.x as nat, 4) + a3;
    let b2 = low_bytes(t.x as nat, 4) + b3;
    let a1 = low_bytes(a.item.h as nat, 4) + a2;
    let b1 = low_bytes(b.item.h as nat, 4) + b2;
    lemma_word_apart(a.item.w, b.item.w, a1, b1);
    lemma_word_apart(a.item.h, b.item.h, a2, b2);
    lemma_word_apart(s.x, t.x, a3, b3);
    lemma_word_apart(s.y, t.y, a4, b4);
    lemma_word_apart(s.w, t.w, a5, b5);
    lemma_word_apart(s.h, t.h, a6, b6);
    lemma_word_apart(m.0, n.0, a7, b7);
    lemma_word_apart(m.1, n.1, a8, b8);
    lemma_same_tail(seq![flag_byte(a.item.trimmed)], x, seq![flag_byte(b.item.trimmed)], y);
    assert(seq![flag_byte(a.item.trimmed)][0] == seq![flag_byte(b.item.trimmed)][0]);
}

proof fn lemma_groups_from_front(groups: Seq<PreparedAtlasGroup>, end: int)
    requires
        0 < end <= groups.len(),
    ensures
        groups_bytes(groups, end) == group_bytes(groups[0]) + groups_bytes(
            groups.skip(1),
            end - 1,
        ),
    decreases end,
{
    let first = group_bytes(groups[0]);
    if end == 1 {
        assert(groups_bytes(groups, 0) =~= Seq::<u8>::empty());
        assert(groups_bytes(groups.skip(1), 0) =~= Seq::<u8>::empty());
        assert(groups_bytes(groups, 1) =~= first + groups_bytes(groups.skip(1), 0));
    } else {
        lemma_groups_from_front(groups, end - 1);
        assert(groups.skip(1)[end - 2] == groups[end - 1]);
        assert(groups_bytes(groups, end) =~= first + groups_bytes(groups.skip(1), end - 1));
    }
}

proof fn lemma_group_not_empty(group: PreparedAtlasGroup)
    ensures
        group_bytes(group).len() > 0,
{
    lemma_low_bytes_len(encode_utf8(group.group_key@).len(), 8);
    lemma_group_parts(group, Seq::empty());
    assert(group_bytes(group) + Seq::<u8>::empty() =~= group_bytes(group));
}

#[verifier::spinoff_prover]
#[verifier::rlimit(100)]
proof fn lemma_groups_apart(a: Seq<PreparedAtlasGroup>, b: Seq<PreparedAtlasGroup>)
    requires
        forall|g: int| 0 <= g < a.len() ==> texts_fit(#[trigger] a[g]),
        forall|g: int| 0 <= g < b.len() ==> texts_fit(#[trigger] b[g]),
        groups_bytes(a, a.len() as int) == groups_bytes(b, b.len() as int),
    ensures
        a.len() == b.len(),
        forall|g: int| 0 <= g < a.len() ==> same_layout(#[trigger] a[g], b[g]),
    decreases a.len(),
{
    if a.len() == 0 {
        if b.len() > 0 {
            lemma_groups_from_front(b, b.len() as int);
            lemma_group_not_empty(b[0]);
        }
    } else {
        lemma_groups_from_front(a, a.len() as int);
        lemma_group_not_empty(a[0]);
        if b.len() > 0 {
            lemma_groups_from_front(b, b.len() as int);
            let a1 = a.skip(1);
            let b1 = b.skip(1);
            lemma_group_apart(
                a[0],
                b[0],
                groups_bytes(a1, a.len() - 1),
                groups_bytes(b1, b.len() - 1),
            );
            assert forall|g: int| 0 <= g < a1.len() implies texts_fit(#[trigger] a1[g]) by {
                assert(a1[g] == a[g + 1]);
            }
            assert forall|g: int| 0 <= g < b1.len() implies texts_fit(#[trigger] b1[g]) by {
                assert(b1[g] == b[g + 1]);
            }
            lemma_groups_apart(a1, b1);
            assert forall|g: int| 0 <= g < a.len() implies same_layout(#[trigger] a[g], b[g]) by {
                if g > 0 {
                    assert(a1[g - 1] == a[g] && b1[g - 1] == b[g]);
                }
            }
        }
    }
}

/// Layouts with the same fingerprinted bytes are the same: of the same settings and of groups that
/// lay out the same, one by one.
pub proof fn lemma_layouts_told_apart(
    domain: AtlasDomain,
    shared_a: Seq<u8>,
    shared_b: Seq<u8>,
    family_a: Seq<u8>,
    family_b: Seq<u8>,
    a: Seq<PreparedAtlasGroup>,
    b: Seq<PreparedAtlasGroup>,
)
    requires
        shared_a.len() <= u64::MAX,
        shared_b.len() <= u64::MAX,
        family_a.len() <= u64::MAX,
        family_b.len() <= u64::MAX,
        forall|g: int| 0 <= g < a.len() ==> texts_fit(#[trigger] a[g]),
        forall|g: int| 0 <= g < b.len() ==> texts_fit(#[trigger] b[g]),
        layout_bytes(domain, shared_a, family_a, a) == layout_bytes(domain, shared_b, family_b, b),
    ensures
        shared_a == shared_b,
        family_a == family_b,
        a.len() == b.len(),
        forall|g: int| 0 <= g < a.len() ==> same_layout(#[trigger] a[g], b[g]),
{
    let tag = encode_utf8(LAYOUT_DIGEST_TAG@) + framed(encode_utf8(prefix_of(domain)));
    let ga = groups_bytes(a, a.len() as int);
    let gb = groups_bytes(b, b.len() as int);
    assert(layout_bytes(domain, shared_a, family_a, a) =~= tag + (framed(shared_a) + (framed(
        family_a,
    ) + ga)));
    assert(layout_bytes(domain, shared_b, family_b, b) =~= tag + (framed(shared_b) + (framed(
        family_b,
    ) + gb)));
    lemma_same_tail(
        tag,
        framed(shared_a) + (framed(family_a) + ga),
        tag,
        framed(shared_b) + (framed(family_b) + gb),
    );
    lemma_frames_apart(shared_a, shared_b, framed(family_a) + ga, framed(family_b) + gb);
    lemma_frames_apart(family_a, family_b, ga, gb);
    lemma_groups_apart(a, b);
}

// ---------------------------------------------------------------------------------------------
// Bindings
// ---------------------------------------------------------------------------------------------

/// The bytes of a binding tell its family, its path, its page and each side of its bound.
pub proof fn lemma_bindings_told_apart(
    f: u8,
    g: u8,
    p: Seq<char>,
    q: Seq<char>,
    a: (usize, UvBound),
    b: (usize, UvBound),
    x: Seq<u8>,
    y: Seq<u8>,
)
    requires
        encode_utf8(p).len() <= u64::MAX,
        encode_utf8(q).len() <= u64::MAX,
        binding_bytes(f, p, a) + x == binding_bytes(g, q, b) + y,
    ensures
        f == g,
        p == q,
        a == b,
        x == y,
{
    let a4 = low_bytes(a.1.max_y as nat, 4) + x;
    let b4 = low_bytes(b.1.max_y as nat, 4) + y;
    let a3 = low_bytes(a.1.min_y as nat, 4) + a4;
    let b3 = low_bytes(b.1.min_y as nat, 4) + b4;
    let a2 = low_bytes(a.1.max_x as nat, 4) + a3;
    let b2 = low_bytes(b.1.max_x as nat, 4) + b3;
    let a1 = low_bytes(a.1.min_x as nat, 4) + a2;
    let b1 = low_bytes(b.1.min_x as nat, 4) + b2;
    let a0 = low_bytes(a.0 as nat, 8) + a1;
    let b0 = low_bytes(b.0 as nat, 8) + b1;
    assert(binding_bytes(f, p, a) + x =~= seq![f] + (framed(encode_utf8(p)) + a0));
    assert(binding_bytes(g, q, b) + y =~= seq![g] + (framed(encode_utf8(q)) + b0));
    lemma_same_tail(
        seq![f],
        framed(encode_utf8(p)) + a0,
        seq![g],
        framed(encode_utf8(q)) + b0,
    );
    assert(seq![f][0] == seq![g][0]);
    lemma_frames_apart(encode_utf8(p), encode_utf8(q), a0, b0);
    lemma_utf8_injective(p, q);
    lemma_words(a.0 as nat);
    lemma_words(b.0 as nat);
    lemma_numbers_apart(a.0 as nat, b.0 as nat, 8, a1, b1);
    lemma_word_apart(a.1.min_x, b.1.min_x, a2, b2);
    lemma_word_apart(a.1.max_x, b.1.max_x, a3, b3);
    lemma_word_apart(a.1.min_y, b.1.min_y, a4, b4);
    lemma_word_apart(a.1.max_y, b.1.max_y, x, y);
}

proof fn lemma_family_from_front(
    family: u8,
    map: Map<Seq<char>, (usize, UvBound)>,
    paths: Seq<Seq<char>>,
)
    requires
        paths.len() > 0,
    ensures
        family_bytes(family, map, paths) == binding_bytes(family, paths[0], map[paths[0]])
            + family_bytes(family, map, paths.skip(1)),
    decreases paths.len(),
{
    let first = binding_bytes(family, paths[0], map[paths[0]]);
    if paths.len() == 1 {
        assert(paths.drop_last() =~= Seq::<Seq<char>>::empty());
        assert(paths.skip(1) =~= Seq::<Seq<char>>::empty());
        assert(family_bytes(family, map, paths) =~= first + family_bytes(
            family,
            map,
            paths.skip(1),
        ));
    } else {
        lemma_family_from_front(family, map, paths.drop_last());
        assert(paths.drop_last().skip(1) =~= paths.skip(1).drop_last());
        assert(family_bytes(family, map, paths) =~= first + family_bytes(
            family,
            map,
            paths.skip(1),
        ));
    }
}

/// The paths can be held in memory.
pub open spec fn paths_fit(paths: Seq<Seq<char>>) -> bool {
    forall|i: int| 0 <= i < paths.len() ==> encode_utf8(#[trigger] paths[i]).len() <= u64::MAX
}

#[verifier::spinoff_prover]
#[verifier::rlimit(100)]
proof fn lemma_streams_apart(
    opaque_a: Map<Seq<char>, (usize, UvBound)>,
    alpha_a: Map<Seq<char>, (usize, UvBound)>,
    opaque_b: Map<Seq<char>, (usize, UvBound)>,
    alpha_b: Map<Seq<char>, (usize, UvBound)>,
    oa: Seq<Seq<char>>,
    aa: Seq<Seq<char>>,
    ob: Seq<Seq<char>>,
    ab: Seq<Seq<char>>,
)
    requires
        paths_fit(oa),
        paths_fit(aa),
        paths_fit(ob),
        paths_fit(ab),
        family_bytes(0, opaque_a, oa) + family_bytes(1, alpha_a, aa) == family_bytes(
            0,
            opaque_b,
            ob,
        ) + family_bytes(1, alpha_b, ab),
    ensures
        oa == ob,
        aa == ab,
        forall|i: int| 0 <= i < oa.len() ==> opaque_a[#[trigger] oa[i]] == opaque_b[oa[i]],
        forall|i: int| 0 <= i < aa.len() ==> alpha_a[#[trigger] aa[i]] == alpha_b[aa[i]],
    decreases oa.len() + aa.len(),
{
    let ta = family_bytes(1, alpha_a, aa);
    let tb = family_bytes(1, alpha_b, ab);
    let none = Seq::<u8>::empty();
    if oa.len() > 0 {
        lemma_family_from_front(0, opaque_a, oa);
    } else {
        assert(family_bytes(0, opaque_a, oa) + ta =~= ta);
        if aa.len() > 0 {
            lemma_family_from_front(1, alpha_a, aa);
        }
    }
    if ob.len() > 0 {
        lemma_family_from_front(0, opaque_b, ob);
    } else {
        assert(family_bytes(0, opaque_b, ob) + tb =~= tb);
        if ab.len() > 0 {
            lemma_family_from_front(1, alpha_b, ab);
        }
    }
    if oa.len() + aa.len() == 0 {
        assert(family_bytes(0, opaque_a, oa) + ta =~= none);
        if ob.len() + ab.len() > 0 {
            assert((family_bytes(0, opaque_b, ob) + tb).len() > 0);
        }
        assert(oa =~= ob);
        assert(aa =~= ab);
    } else if ob.len() + ab.len() == 0 {
        assert(family_bytes(0, opaque_b, ob) + tb =~= none);
        assert((family_bytes(0, opaque_a, oa) + ta).len() > 0);
    } else {
        let (fa, pa, va, ra) = if oa.len() > 0 {
            (0u8, oa[0], opaque_a[oa[0]], family_bytes(0, opaque_a, oa.skip(1)) + ta)
        } else {
            (1u8, aa[0], alpha_a[aa[0]], family_bytes(1, alpha_a, aa.skip(1)))
        };
        let (fb, pb, vb, rb) = if ob.len() > 0 {
            (0u8, ob[0], opaque_b[ob[0]], family_bytes(0, opaque_b, ob.skip(1)) + tb)
        } else {
            (1u8, ab[0], alpha_b[ab[0]], family_bytes(1, alpha_b, ab.skip(1)))
        };
        assert(family_bytes(0, opaque_a, oa) + ta =~= binding_bytes(fa, pa, va) + ra);
        assert(family_bytes(0, opaque_b, ob) + tb =~= binding_bytes(fb, pb, vb) + rb);
        lemma_bindings_told_apart(fa, fb, pa, pb, va, vb, ra, rb);
        if oa.len() > 0 {
            let o1 = oa.skip(1);
            let o2 = ob.skip(1);
            assert forall|i: int| 0 <= i < o1.len() implies encode_utf8(#[trigger] o1[i]).len()
                <= u64::MAX by {
                assert(o1[i] == oa[i + 1]);
            }
            assert forall|i: int| 0 <= i < o2.len() implies encode_utf8(#[trigger] o2[i]).len()
                <= u64::MAX by {
                assert(o2[i] == ob[i + 1]);
            }
            lemma_streams_apart(opaque_a, alpha_a, opaque_b, alpha_b, o1, aa, o2, ab);
            assert(oa =~= seq![oa[0]] + o1);
            assert(ob =~= seq![ob[0]] + o2);
            assert forall|i: int| 0 <= i < oa.len() implies opaque_a[#[trigger] oa[i]]
                == opaque_b[oa[i]] by {
                if i > 0 {
                    assert(o1[i - 1] == oa[i]);
                }
            }
        } else {
            let a1 = aa.skip(1);
            let a2 = ab.skip(1);
            assert forall|i: int| 0 <= i < a1.len() implies encode_utf8(#[trigger] a1[i]).len()
                <= u64::MAX by {
                assert(a1[i] == aa[i + 1]);
            }
            assert forall|i: int| 0 <= i < a2.len() implies encode_utf8(#[trigger] a2[i]).len()
                <= u64::MAX by {
                assert(a2[i] == ab[i + 1]);
            }
            assert(family_bytes(0, opaque_a, oa) + family_bytes(1, alpha_a, a1) =~= ra);
            assert(family_bytes(0, opaque_b, ob) + family_bytes(1, alpha_b, a2) =~= rb);
            lemma_streams_apart(opaque_a, alpha_a, opaque_b, alpha_b, oa, a1, ob, a2);
            assert(aa =~= seq![aa[0]] + a1);
            assert(ab =~= seq![ab[0]] + a2);
            assert forall|i: int| 0 <= i < aa.len() implies alpha_a[#[trigger] aa[i]]
                == alpha_b[aa[i]] by {
                if i > 0 {
                    assert(a1[i - 1] == aa[i]);
                }
            }
        }
    }
}

/// Bindings with the same canonical bytes are the same, path by path and in both families.
pub proof fn lemma_binding_sets_told_apart(
    opaque_a: Map<Seq<char>, (usize, UvBound)>,
    alpha_a: Map<Seq<char>, (usize, UvBound)>,
    opaque_b: Map<Seq<char>, (usize, UvBound)>,
    alpha_b: Map<Seq<char>, (usize, UvBound)>,
    oa: Seq<Seq<char>>,
    aa: Seq<Seq<char>>,
    ob: Seq<Seq<char>>,
    ab: Seq<Seq<char>>,
)
    requires
        paths_fit(oa),
        paths_fit(aa),
        paths_fit(ob),
        paths_fit(ab),
        bindings_bytes(opaque_a, alpha_a, oa, aa) == bindings_bytes(opaque_b, alpha_b, ob, ab),
    ensures
        oa == ob,
        aa == ab,
        forall|i: int| 0 <= i < oa.len() ==> opaque_a[#[trigger] oa[i]] == opaque_b[oa[i]],
        forall|i: int| 0 <= i < aa.len() ==> alpha_a[#[trigger] aa[i]] == alpha_b[aa[i]],
{
    let tag = encode_utf8("static_atlas_bindings_v1\n"@);
    let ca = low_bytes((oa.len() + aa.len()) % 0x1_0000_0000_0000_0000, 8);
    let cb = low_bytes((ob.len() + ab.len()) % 0x1_0000_0000_0000_0000, 8);
    let sa = family_bytes(0, opaque_a, oa) + family_bytes(1, alpha_a, aa);
    let sb = family_bytes(0, opaque_b, ob) + family_bytes(1, alpha_b, ab);
    assert(bindings_bytes(opaque_a, alpha_a, oa, aa) =~= (tag + ca) + sa);
    assert(bindings_bytes(opaque_b, alpha_b, ob, ab) =~= (tag + cb) + sb);
    lemma_low_bytes_len((oa.len() + aa.len()) % 0x1_0000_0000_0000_0000, 8);
    lemma_low_bytes_len((ob.len() + ab.len()) % 0x1_0000_0000_0000_0000, 8);
    lemma_same_tail(tag + ca, sa, tag + cb, sb);
    lemma_streams_apart(opaque_a, alpha_a, opaque_b, alpha_b, oa, aa, ob, ab);
}

} // verus!
