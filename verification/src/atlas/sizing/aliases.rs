//! Sizing of textures that share one decoded image.

use crate::atlas::pack::keys_distinct;
use crate::atlas::sizing::{
    baseline_dims_for, baseline_of, is_limiter, longer, longer_side, SizingPlan, SourceTextureInfo,
    TextureAxisCaps,
};
use crate::atlas::types::{AtlasTextureSet, TextureDedupeMode};
use crate::byte_text::push_char;
use crate::ordered_map::OrderedTextMap;
use crate::pair_index::PairIndex;
use crate::text_map::TextMap;
use vstd::prelude::*;

verus! {

/// Longest baseline dimension for a source, the long cap where it is unprobeable.
pub open spec fn baseline_longest<L: Fn(u32, u32, u32) -> (u32, u32)>(
    limit: L,
    info: SourceTextureInfo,
    caps: TextureAxisCaps,
) -> u32 {
    match baseline_of(limit, info, caps) {
        Some(dims) => longer(dims),
        None => caps.long,
    }
}

/// Longest baseline dimension for a source, falling back to the long cap when unprobeable so an
/// unprobeable group never reduces.
fn baseline_longest_of<L: Fn(u32, u32, u32) -> (u32, u32)>(
    limit: &L,
    info: &SourceTextureInfo,
    caps: TextureAxisCaps,
) -> (r: u32)
    requires
        is_limiter(*limit),
    ensures
        r == baseline_longest(*limit, *info, caps),
{
    match baseline_dims_for(limit, info, caps) {
        Some(dims) => longer_side(dims),
        None => caps.long,
    }
}

/// Two probed sources are byte-identical, as far as size and content hash tell.
pub open spec fn same_source(a: SourceTextureInfo, b: SourceTextureInfo) -> bool {
    a.size == b.size && a.hash@ == b.hash@
}

/// The probed sources of an alias group: key `j` shares its source with key `i`.
pub open spec fn shares_source(
    keys: Seq<String>,
    source_info: Map<Seq<char>, SourceTextureInfo>,
    i: int,
    j: int,
) -> bool {
    &&& source_info.dom().contains(keys[i]@)
    &&& source_info.dom().contains(keys[j]@)
    &&& same_source(source_info[keys[i]@], source_info[keys[j]@])
}

/// How many of the first `end` keys share the source of key `i`.
pub open spec fn sharers(
    keys: Seq<String>,
    source_info: Map<Seq<char>, SourceTextureInfo>,
    i: int,
    end: int,
) -> nat
    decreases end,
{
    if end <= 0 {
        0
    } else {
        sharers(keys, source_info, i, end - 1) + if shares_source(keys, source_info, i, end - 1) {
            1nat
        } else {
            0
        }
    }
}

/// Largest baseline among the first `end` keys that share the source of key `i`.
pub open spec fn group_baseline<L: Fn(u32, u32, u32) -> (u32, u32)>(
    limit: L,
    caps: TextureAxisCaps,
    keys: Seq<String>,
    source_info: Map<Seq<char>, SourceTextureInfo>,
    i: int,
    end: int,
) -> u32
    decreases end,
{
    if end <= 0 {
        0
    } else {
        let before = group_baseline(limit, caps, keys, source_info, i, end - 1);
        let own = baseline_longest(limit, source_info[keys[end - 1]@], caps);
        if shares_source(keys, source_info, i, end - 1) && own > before {
            own
        } else {
            before
        }
    }
}

/// What is selected for a key: its override, or its baseline.
pub open spec fn selection<L: Fn(u32, u32, u32) -> (u32, u32)>(
    limit: L,
    caps: TextureAxisCaps,
    source_info: Map<Seq<char>, SourceTextureInfo>,
    overrides: Map<Seq<char>, u32>,
    key: Seq<char>,
) -> u32 {
    if overrides.dom().contains(key) {
        overrides[key]
    } else {
        baseline_longest(limit, source_info[key], caps)
    }
}

/// Largest selection among the first `end` keys that share the source of key `i`.
pub open spec fn group_selection<L: Fn(u32, u32, u32) -> (u32, u32)>(
    limit: L,
    caps: TextureAxisCaps,
    keys: Seq<String>,
    source_info: Map<Seq<char>, SourceTextureInfo>,
    overrides: Map<Seq<char>, u32>,
    i: int,
    end: int,
) -> u32
    decreases end,
{
    if end <= 0 {
        0
    } else {
        let before = group_selection(limit, caps, keys, source_info, overrides, i, end - 1);
        let own = selection(limit, caps, source_info, overrides, keys[end - 1]@);
        if shares_source(keys, source_info, i, end - 1) && own > before {
            own
        } else {
            before
        }
    }
}

/// What an alias group settles on.
#[derive(Clone, Copy, Debug, PartialEq, Eq, Structural)]
pub enum GroupSizing {
    /// The key shares its source with no other; its own selection stands.
    Alone,
    /// Some member needs full resolution, so no member is reduced.
    Full,
    /// Every member is reduced to this dimension.
    Reduced(u32),
}

/// What the alias group of key `i` settles on.
pub open spec fn sizing_of<L: Fn(u32, u32, u32) -> (u32, u32)>(
    limit: L,
    caps: TextureAxisCaps,
    keys: Seq<String>,
    source_info: Map<Seq<char>, SourceTextureInfo>,
    overrides: Map<Seq<char>, u32>,
    i: int,
) -> GroupSizing {
    let end = keys.len() as int;
    let selected = group_selection(limit, caps, keys, source_info, overrides, i, end);
    if sharers(keys, source_info, i, end) < 2 {
        GroupSizing::Alone
    } else if selected >= group_baseline(limit, caps, keys, source_info, i, end) {
        GroupSizing::Full
    } else {
        GroupSizing::Reduced(selected)
    }
}

/// The content hash as text, one character for each byte.
pub open spec fn hash_text(hash: Seq<u8>) -> Seq<char> {
    hash.map_values(|byte: u8| byte as char)
}

/// By what a source is told apart: its content hash and its size.
pub open spec fn source_pair(info: SourceTextureInfo) -> (Seq<char>, u64) {
    (hash_text(info.hash@), info.size)
}

/// Sources are the same where their pairs are.
proof fn lemma_source_pair(a: SourceTextureInfo, b: SourceTextureInfo)
    ensures
        source_pair(a) == source_pair(b) <==> same_source(a, b),
{
    if source_pair(a) == source_pair(b) {
        assert forall|i: int| 0 <= i < 32 implies a.hash@[i] == b.hash@[i] by {
            assert(hash_text(a.hash@)[i] == hash_text(b.hash@)[i]);
        }
        assert(a.hash@ =~= b.hash@);
    }
}

fn hash_text_of(hash: &[u8; 32]) -> (r: String)
    ensures
        r@ == hash_text(hash@),
{
    let mut r = String::new();
    let mut i: usize = 0;
    assert(r@ =~= hash_text(hash@).take(0));
    while i < 32
        invariant
            i <= 32,
            r@ == hash_text(hash@).take(i as int),
        decreases 32 - i,
    {
        push_char(&mut r, hash[i] as char);
        assert(hash_text(hash@).take(i + 1) =~= hash_text(hash@).take(i as int).push(
            hash@[i as int] as char,
        ));
        i = i + 1;
    }
    assert(hash_text(hash@).take(32) =~= hash_text(hash@));
    r
}

/// What the members of an alias group add up to.
struct AliasGroup {
    members: usize,
    baseline: u32,
    selected: u32,
}

/// The groups hold what the first `end` keys add up to, for every source that occurs among them.
spec fn groups_hold<L: Fn(u32, u32, u32) -> (u32, u32)>(
    limit: L,
    caps: TextureAxisCaps,
    keys: Seq<String>,
    source_info: Map<Seq<char>, SourceTextureInfo>,
    overrides: Map<Seq<char>, u32>,
    index: Map<(Seq<char>, u64), usize>,
    groups: Seq<AliasGroup>,
    end: int,
) -> bool {
    &&& forall|pair: (Seq<char>, u64)| #[trigger]
        index.dom().contains(pair) ==> index[pair] < groups.len()
    &&& forall|a: (Seq<char>, u64), b: (Seq<char>, u64)|
        #![trigger index[a], index[b]]
        index.dom().contains(a) && index.dom().contains(b) && a != b ==> index[a] != index[b]
    &&& forall|i: int|
        #![trigger sharers(keys, source_info, i, end)]
        0 <= i < keys.len() && source_info.dom().contains(keys[i]@) ==> group_holds(
            limit,
            caps,
            keys,
            source_info,
            overrides,
            index,
            groups,
            i,
            end,
        )
}

/// The group of key `i` holds what the first `end` keys add up to.
spec fn group_holds<L: Fn(u32, u32, u32) -> (u32, u32)>(
    limit: L,
    caps: TextureAxisCaps,
    keys: Seq<String>,
    source_info: Map<Seq<char>, SourceTextureInfo>,
    overrides: Map<Seq<char>, u32>,
    index: Map<(Seq<char>, u64), usize>,
    groups: Seq<AliasGroup>,
    i: int,
    end: int,
) -> bool {
    let pair = source_pair(source_info[keys[i]@]);
    let members = sharers(keys, source_info, i, end);
    let baseline = group_baseline(limit, caps, keys, source_info, i, end);
    let selected = group_selection(limit, caps, keys, source_info, overrides, i, end);
    if index.dom().contains(pair) {
        let group = groups[index[pair] as int];
        group.members == members && group.baseline == baseline && group.selected == selected
    } else {
        members == 0 && baseline == 0 && selected == 0
    }
}

/// Adds every key up with those that share its source.
fn group_aliases<L: Fn(u32, u32, u32) -> (u32, u32)>(
    limit: &L,
    caps: TextureAxisCaps,
    keys: &[String],
    source_info: &TextMap<SourceTextureInfo>,
    overrides: &OrderedTextMap<u32>,
) -> (r: (PairIndex, Vec<AliasGroup>))
    requires
        is_limiter(*limit),
        source_info.wf(),
        overrides.wf(),
    ensures
        r.0.wf(),
        groups_hold(
            *limit,
            caps,
            keys@,
            source_info@,
            overrides@,
            r.0@,
            r.1@,
            keys@.len() as int,
        ),
{
    let mut index = PairIndex::new();
    let mut groups: Vec<AliasGroup> = Vec::new();
    let mut j: usize = 0;
    while j < keys.len()
        invariant
            is_limiter(*limit),
            source_info.wf(),
            overrides.wf(),
            j <= keys@.len(),
            index.wf(),
            forall|q: int| 0 <= q < groups@.len() ==> (#[trigger] groups@[q]).members <= j,
            groups_hold(
                *limit,
                caps,
                keys@,
                source_info@,
                overrides@,
                index@,
                groups@,
                j as int,
            ),
        decreases keys@.len() - j,
    {
        let key = keys[j].as_str();
        let ghost old_index = index@;
        let ghost old_groups = groups@;
        match source_info.get(key) {
            Some(info) => {
                let hash = hash_text_of(&info.hash);
                let baseline: u32 = baseline_longest_of(limit, info, caps);
                let selected: u32 = match overrides.get(key) {
                    Some(dim) => *dim,
                    None => baseline,
                };
                let at: usize = match index.get(hash.as_str(), info.size) {
                    Some(at) => at,
                    None => {
                        let at: usize = groups.len();
                        groups.push(AliasGroup { members: 0, baseline: 0, selected: 0 });
                        index.insert(&hash, info.size, at);
                        at
                    },
                };
                let ghost middle = groups@;
                let members: usize = groups[at].members + 1;
                let larger: u32 = if baseline > groups[at].baseline {
                    baseline
                } else {
                    groups[at].baseline
                };
                let more: u32 = if selected > groups[at].selected {
                    selected
                } else {
                    groups[at].selected
                };
                groups.set(at, AliasGroup { members, baseline: larger, selected: more });
                proof {
                    let pair = source_pair(*info);
                    assert(source_info@[keys@[j as int]@] == *info);
                    assert forall|i: int|
                        #![trigger sharers(keys@, source_info@, i, j + 1)]
                        0 <= i < keys@.len() && source_info@.dom().contains(
                            keys@[i]@,
                        ) implies group_holds(
                        *limit,
                        caps,
                        keys@,
                        source_info@,
                        overrides@,
                        index@,
                        groups@,
                        i,
                        j + 1,
                    ) by {
                        let own = source_info@[keys@[i]@];
                        assert(sharers(keys@, source_info@, i, j as int) >= 0);
                        assert(group_holds(
                            *limit,
                            caps,
                            keys@,
                            source_info@,
                            overrides@,
                            old_index,
                            old_groups,
                            i,
                            j as int,
                        ));
                        lemma_source_pair(own, *info);
                        if source_pair(own) == pair {
                            assert(shares_source(keys@, source_info@, i, j as int));
                        } else {
                            assert(!shares_source(keys@, source_info@, i, j as int));
                            if index@.dom().contains(source_pair(own)) {
                                assert(index@[source_pair(own)] != index@[pair]);
                            }
                        }
                    }
                    assert forall|q: int| 0 <= q < groups@.len() implies (
                    #[trigger] groups@[q]).members <= j + 1 by {
                        if q < old_groups.len() {
                            assert(old_groups[q].members <= j);
                        }
                    }
                }
            },
            None => {
                proof {
                    assert forall|i: int|
                        #![trigger sharers(keys@, source_info@, i, j + 1)]
                        0 <= i < keys@.len() && source_info@.dom().contains(
                            keys@[i]@,
                        ) implies group_holds(
                        *limit,
                        caps,
                        keys@,
                        source_info@,
                        overrides@,
                        index@,
                        groups@,
                        i,
                        j + 1,
                    ) by {
                        assert(sharers(keys@, source_info@, i, j as int) >= 0);
                        assert(!shares_source(keys@, source_info@, i, j as int));
                    }
                }
            },
        }
        j = j + 1;
    }
    (index, groups)
}

/// What the alias group of key `i` settles on.
fn group_sizing<L: Fn(u32, u32, u32) -> (u32, u32)>(
    limit: &L,
    caps: TextureAxisCaps,
    keys: &[String],
    source_info: &TextMap<SourceTextureInfo>,
    Ghost(overrides): Ghost<Map<Seq<char>, u32>>,
    index: &PairIndex,
    groups: &Vec<AliasGroup>,
    i: usize,
) -> (r: GroupSizing)
    requires
        source_info.wf(),
        index.wf(),
        i < keys@.len(),
        groups_hold(
            *limit,
            caps,
            keys@,
            source_info@,
            overrides,
            index@,
            groups@,
            keys@.len() as int,
        ),
    ensures
        r == sizing_of(*limit, caps, keys@, source_info@, overrides, i as int),
{
    let ghost count = keys@.len() as int;
    assert(sharers(keys@, source_info@, i as int, count) >= 0);
    let info = match source_info.get(keys[i].as_str()) {
        Some(info) => info,
        None => {
            proof {
                lemma_no_sharers(keys@, source_info@, i as int, count);
            }
            return GroupSizing::Alone;
        },
    };
    match index.get(hash_text_of(&info.hash).as_str(), info.size) {
        Some(at) => {
            let group = &groups[at];
            if group.members < 2 {
                GroupSizing::Alone
            } else if group.selected >= group.baseline {
                GroupSizing::Full
            } else {
                GroupSizing::Reduced(group.selected)
            }
        },
        None => GroupSizing::Alone,
    }
}

proof fn lemma_no_sharers(
    keys: Seq<String>,
    source_info: Map<Seq<char>, SourceTextureInfo>,
    i: int,
    end: int,
)
    requires
        !source_info.dom().contains(keys[i]@),
    ensures
        sharers(keys, source_info, i, end) == 0,
    decreases end,
{
    if end > 0 {
        lemma_no_sharers(keys, source_info, i, end - 1);
    }
}

/// The overlay after the first `end` keys have taken what their groups settle on.
pub open spec fn settled<L: Fn(u32, u32, u32) -> (u32, u32)>(
    limit: L,
    caps: TextureAxisCaps,
    keys: Seq<String>,
    source_info: Map<Seq<char>, SourceTextureInfo>,
    overrides: Map<Seq<char>, u32>,
    end: int,
) -> Map<Seq<char>, u32>
    decreases end,
{
    if end <= 0 {
        overrides
    } else {
        let before = settled(limit, caps, keys, source_info, overrides, end - 1);
        match sizing_of(limit, caps, keys, source_info, overrides, end - 1) {
            GroupSizing::Alone => before,
            GroupSizing::Full => before.remove(keys[end - 1]@),
            GroupSizing::Reduced(dim) => before.insert(keys[end - 1]@, dim),
        }
    }
}

fn reconcile_domain<L: Fn(u32, u32, u32) -> (u32, u32)>(
    limit: &L,
    keys: &[String],
    source_info: &TextMap<SourceTextureInfo>,
    caps: TextureAxisCaps,
    overrides: &mut OrderedTextMap<u32>,
)
    requires
        is_limiter(*limit),
        source_info.wf(),
        old(overrides).wf(),
    ensures
        final(overrides).wf(),
        final(overrides)@ == settled(
            *limit,
            caps,
            keys@,
            source_info@,
            old(overrides)@,
            keys@.len() as int,
        ),
{
    let ghost start = overrides@;
    let (index, groups) = group_aliases(limit, caps, keys, source_info, overrides);
    let mut sizings: Vec<GroupSizing> = Vec::new();
    let mut i: usize = 0;
    while i < keys.len()
        invariant
            source_info.wf(),
            overrides.wf(),
            index.wf(),
            start == overrides@,
            groups_hold(
                *limit,
                caps,
                keys@,
                source_info@,
                start,
                index@,
                groups@,
                keys@.len() as int,
            ),
            i <= keys@.len(),
            sizings@.len() == i,
            forall|k: int|
                0 <= k < i ==> #[trigger] sizings@[k] == sizing_of(
                    *limit,
                    caps,
                    keys@,
                    source_info@,
                    start,
                    k,
                ),
        decreases keys@.len() - i,
    {
        sizings.push(
            group_sizing(
                limit,
                caps,
                keys,
                source_info,
                Ghost(start),
                &index,
                &groups,
                i,
            ),
        );
        i = i + 1;
    }
    let mut j: usize = 0;
    while j < keys.len()
        invariant
            overrides.wf(),
            j <= keys@.len(),
            sizings@.len() == keys@.len(),
            overrides@ == settled(*limit, caps, keys@, source_info@, start, j as int),
            forall|k: int|
                0 <= k < keys@.len() ==> #[trigger] sizings@[k] == sizing_of(
                    *limit,
                    caps,
                    keys@,
                    source_info@,
                    start,
                    k,
                ),
        decreases keys@.len() - j,
    {
        match sizings[j] {
            GroupSizing::Alone => {},
            GroupSizing::Full => {
                overrides.remove(keys[j].as_str());
            },
            GroupSizing::Reduced(dim) => {
                overrides.insert(keys[j].clone(), dim);
            },
        }
        j = j + 1;
    }
}

/// Lifts every source-byte-identical alias group to the group's largest selected dimension so a
/// shared decoded texture is never under-sized for any of its uses.
///
/// Runs after planning and before atlas setup; a no-op when nothing is aliased.
pub fn merge_dedupe_alias_requirements<L: Fn(u32, u32, u32) -> (u32, u32)>(
    limit: &L,
    textures: &AtlasTextureSet<Vec<String>>,
    source_info: &TextMap<SourceTextureInfo>,
    dedupe_mode: TextureDedupeMode,
    plan: &mut SizingPlan,
)
    requires
        is_limiter(*limit),
        source_info.wf(),
        old(plan).wf(),
    ensures
        final(plan).wf(),
        final(plan).caps == old(plan).caps,
        final(plan).baselines == old(plan).baselines,
        match dedupe_mode {
            TextureDedupeMode::Off => *final(plan) == *old(plan),
            TextureDedupeMode::Exact => {
                &&& final(plan).opaque_overrides@ == settled(
                    *limit,
                    old(plan).caps,
                    textures.opaque@,
                    source_info@,
                    old(plan).opaque_overrides@,
                    textures.opaque@.len() as int,
                )
                &&& final(plan).alpha_overrides@ == settled(
                    *limit,
                    old(plan).caps,
                    textures.alpha@,
                    source_info@,
                    old(plan).alpha_overrides@,
                    textures.alpha@.len() as int,
                )
            },
        },
{
    match dedupe_mode {
        TextureDedupeMode::Off => return,
        TextureDedupeMode::Exact => {},
    }
    let caps: TextureAxisCaps = plan.caps;
    reconcile_domain(
        limit,
        textures.opaque.as_slice(),
        source_info,
        caps,
        &mut plan.opaque_overrides,
    );
    reconcile_domain(
        limit,
        textures.alpha.as_slice(),
        source_info,
        caps,
        &mut plan.alpha_overrides,
    );
}

// ---------------------------------------------------------------------------------------------
// Laws
// ---------------------------------------------------------------------------------------------

proof fn lemma_settled_key<L: Fn(u32, u32, u32) -> (u32, u32)>(
    limit: L,
    caps: TextureAxisCaps,
    keys: Seq<String>,
    source_info: Map<Seq<char>, SourceTextureInfo>,
    overrides: Map<Seq<char>, u32>,
    end: int,
    i: int,
)
    requires
        keys_distinct(keys),
        0 <= i < keys.len(),
        0 <= end <= keys.len(),
    ensures
        ({
            let after = settled(limit, caps, keys, source_info, overrides, end);
            let key = keys[i]@;
            if i >= end {
                &&& after.dom().contains(key) <==> overrides.dom().contains(key)
                &&& after.dom().contains(key) ==> after[key] == overrides[key]
            } else {
                match sizing_of(limit, caps, keys, source_info, overrides, i) {
                    GroupSizing::Alone => {
                        &&& after.dom().contains(key) <==> overrides.dom().contains(key)
                        &&& after.dom().contains(key) ==> after[key] == overrides[key]
                    },
                    GroupSizing::Full => !after.dom().contains(key),
                    GroupSizing::Reduced(dim) => after.dom().contains(key) && after[key] == dim,
                }
            }
        }),
    decreases end,
{
    if end > 0 {
        lemma_settled_key(limit, caps, keys, source_info, overrides, end - 1, i);
        if i < end - 1 {
            assert(keys[i]@ != keys[end - 1]@);
        } else if i > end - 1 {
            assert(keys[end - 1]@ != keys[i]@);
        }
    }
}

proof fn lemma_group_reaches<L: Fn(u32, u32, u32) -> (u32, u32)>(
    limit: L,
    caps: TextureAxisCaps,
    keys: Seq<String>,
    source_info: Map<Seq<char>, SourceTextureInfo>,
    overrides: Map<Seq<char>, u32>,
    i: int,
    j: int,
    end: int,
)
    requires
        0 <= j < end <= keys.len(),
        shares_source(keys, source_info, i, j),
    ensures
        group_selection(limit, caps, keys, source_info, overrides, i, end) >= selection(
            limit,
            caps,
            source_info,
            overrides,
            keys[j]@,
        ),
        group_baseline(limit, caps, keys, source_info, i, end) >= baseline_longest(
            limit,
            source_info[keys[j]@],
            caps,
        ),
    decreases end,
{
    if j < end - 1 {
        lemma_group_reaches(limit, caps, keys, source_info, overrides, i, j, end - 1);
    }
}

/// A shared decoded texture is never under-sized for any of its uses: merging never lowers what is
/// selected for a key, where no override exceeds its baseline.
pub proof fn lemma_never_undersized<L: Fn(u32, u32, u32) -> (u32, u32)>(
    limit: L,
    caps: TextureAxisCaps,
    keys: Seq<String>,
    source_info: Map<Seq<char>, SourceTextureInfo>,
    overrides: Map<Seq<char>, u32>,
    i: int,
)
    requires
        keys_distinct(keys),
        0 <= i < keys.len(),
        overrides.dom().contains(keys[i]@) ==> overrides[keys[i]@] <= baseline_longest(
            limit,
            source_info[keys[i]@],
            caps,
        ),
    ensures
        selection(
            limit,
            caps,
            source_info,
            settled(limit, caps, keys, source_info, overrides, keys.len() as int),
            keys[i]@,
        ) >= selection(limit, caps, source_info, overrides, keys[i]@),
{
    let end = keys.len() as int;
    lemma_settled_key(limit, caps, keys, source_info, overrides, end, i);
    if sizing_of(limit, caps, keys, source_info, overrides, i) is Reduced {
        if source_info.dom().contains(keys[i]@) {
            lemma_group_reaches(limit, caps, keys, source_info, overrides, i, i, end);
        } else {
            lemma_unprobed_alone(keys, source_info, i, end);
        }
    }
}

proof fn lemma_unprobed_alone(
    keys: Seq<String>,
    source_info: Map<Seq<char>, SourceTextureInfo>,
    i: int,
    end: int,
)
    requires
        !source_info.dom().contains(keys[i]@),
    ensures
        sharers(keys, source_info, i, end) == 0,
    decreases end,
{
    if end > 0 {
        lemma_unprobed_alone(keys, source_info, i, end - 1);
    }
}

proof fn lemma_group_shared<L: Fn(u32, u32, u32) -> (u32, u32)>(
    limit: L,
    caps: TextureAxisCaps,
    keys: Seq<String>,
    source_info: Map<Seq<char>, SourceTextureInfo>,
    overrides: Map<Seq<char>, u32>,
    i: int,
    j: int,
    end: int,
)
    requires
        shares_source(keys, source_info, i, j),
    ensures
        sharers(keys, source_info, i, end) == sharers(keys, source_info, j, end),
        group_baseline(limit, caps, keys, source_info, i, end) == group_baseline(
            limit,
            caps,
            keys,
            source_info,
            j,
            end,
        ),
        group_selection(limit, caps, keys, source_info, overrides, i, end) == group_selection(
            limit,
            caps,
            keys,
            source_info,
            overrides,
            j,
            end,
        ),
    decreases end,
{
    if end > 0 {
        lemma_group_shared(limit, caps, keys, source_info, overrides, i, j, end - 1);
        assert(shares_source(keys, source_info, i, end - 1) == shares_source(
            keys,
            source_info,
            j,
            end - 1,
        ));
    }
}

/// Byte-identical sources end up alike: either none of them is reduced, or all to one dimension.
pub proof fn lemma_aliases_agree<L: Fn(u32, u32, u32) -> (u32, u32)>(
    limit: L,
    caps: TextureAxisCaps,
    keys: Seq<String>,
    source_info: Map<Seq<char>, SourceTextureInfo>,
    overrides: Map<Seq<char>, u32>,
    i: int,
    j: int,
)
    requires
        keys_distinct(keys),
        0 <= i < keys.len(),
        0 <= j < keys.len(),
        shares_source(keys, source_info, i, j),
    ensures
        ({
            let after = settled(limit, caps, keys, source_info, overrides, keys.len() as int);
            &&& after.dom().contains(keys[i]@) <==> after.dom().contains(keys[j]@)
            &&& after.dom().contains(keys[i]@) ==> after[keys[i]@] == after[keys[j]@]
        }),
{
    let end = keys.len() as int;
    lemma_settled_key(limit, caps, keys, source_info, overrides, end, i);
    lemma_settled_key(limit, caps, keys, source_info, overrides, end, j);
    lemma_group_shared(limit, caps, keys, source_info, overrides, i, j, end);
    if i != j {
        lemma_two_sharers(keys, source_info, i, j, end);
    }
}

proof fn lemma_two_sharers(
    keys: Seq<String>,
    source_info: Map<Seq<char>, SourceTextureInfo>,
    i: int,
    j: int,
    end: int,
)
    requires
        i != j,
        0 <= i,
        0 <= j,
        shares_source(keys, source_info, i, j),
    ensures
        sharers(keys, source_info, i, end) >= (if i < end {
            1int
        } else {
            0
        }) + (if j < end {
            1int
        } else {
            0
        }),
    decreases end,
{
    if end > 0 {
        lemma_two_sharers(keys, source_info, i, j, end - 1);
        assert(shares_source(keys, source_info, i, i));
    }
}

proof fn lemma_group_attained<L: Fn(u32, u32, u32) -> (u32, u32)>(
    limit: L,
    caps: TextureAxisCaps,
    keys: Seq<String>,
    source_info: Map<Seq<char>, SourceTextureInfo>,
    overrides: Map<Seq<char>, u32>,
    i: int,
    end: int,
)
    ensures
        ({
            let selected = group_selection(limit, caps, keys, source_info, overrides, i, end);
            selected == 0 || exists|j: int|
                0 <= j < end && #[trigger] shares_source(keys, source_info, i, j) && selection(
                    limit,
                    caps,
                    source_info,
                    overrides,
                    keys[j]@,
                ) == selected
        }),
        ({
            let baseline = group_baseline(limit, caps, keys, source_info, i, end);
            baseline == 0 || exists|j: int|
                0 <= j < end && #[trigger] shares_source(keys, source_info, i, j)
                    && baseline_longest(limit, source_info[keys[j]@], caps) == baseline
        }),
        (forall|j: int| 0 <= j < end && j != i ==> !#[trigger] shares_source(keys, source_info, i, j))
            ==> sharers(keys, source_info, i, end) <= (if i < end {
            1int
        } else {
            0
        }),
    decreases end,
{
    if end > 0 {
        lemma_group_attained(limit, caps, keys, source_info, overrides, i, end - 1);
        assert(shares_source(keys, source_info, i, end - 1) || !shares_source(
            keys,
            source_info,
            i,
            end - 1,
        ));
    }
}

/// A texture that shares its source with no other keeps what is selected for it. Those that share one
/// are reduced where the largest selection among them is below the largest baseline, and to that
/// selection; otherwise none of them is reduced.
pub proof fn lemma_aliases_take_largest<L: Fn(u32, u32, u32) -> (u32, u32)>(
    limit: L,
    caps: TextureAxisCaps,
    keys: Seq<String>,
    source_info: Map<Seq<char>, SourceTextureInfo>,
    overrides: Map<Seq<char>, u32>,
    i: int,
    selected: u32,
    baseline: u32,
)
    requires
        keys_distinct(keys),
        0 <= i < keys.len(),
        forall|j: int|
            0 <= j < keys.len() && #[trigger] shares_source(keys, source_info, i, j) ==> selection(
                limit,
                caps,
                source_info,
                overrides,
                keys[j]@,
            ) <= selected && baseline_longest(limit, source_info[keys[j]@], caps) <= baseline,
        exists|j: int|
            0 <= j < keys.len() && #[trigger] shares_source(keys, source_info, i, j) && selection(
                limit,
                caps,
                source_info,
                overrides,
                keys[j]@,
            ) == selected,
        exists|j: int|
            0 <= j < keys.len() && #[trigger] shares_source(keys, source_info, i, j)
                && baseline_longest(limit, source_info[keys[j]@], caps) == baseline,
    ensures
        ({
            let after = settled(limit, caps, keys, source_info, overrides, keys.len() as int);
            let key = keys[i]@;
            if forall|j: int|
                0 <= j < keys.len() && j != i ==> !#[trigger] shares_source(
                    keys,
                    source_info,
                    i,
                    j,
                ) {
                &&& after.dom().contains(key) <==> overrides.dom().contains(key)
                &&& after.dom().contains(key) ==> after[key] == overrides[key]
            } else {
                &&& after.dom().contains(key) <==> selected < baseline
                &&& after.dom().contains(key) ==> after[key] == selected
            }
        }),
{
    let end = keys.len() as int;
    lemma_settled_key(limit, caps, keys, source_info, overrides, end, i);
    lemma_group_attained(limit, caps, keys, source_info, overrides, i, end);
    let s = choose|j: int|
        0 <= j < keys.len() && #[trigger] shares_source(keys, source_info, i, j) && selection(
            limit,
            caps,
            source_info,
            overrides,
            keys[j]@,
        ) == selected;
    lemma_group_reaches(limit, caps, keys, source_info, overrides, i, s, end);
    let b = choose|j: int|
        0 <= j < keys.len() && #[trigger] shares_source(keys, source_info, i, j)
            && baseline_longest(limit, source_info[keys[j]@], caps) == baseline;
    lemma_group_reaches(limit, caps, keys, source_info, overrides, i, b, end);
    assert(group_selection(limit, caps, keys, source_info, overrides, i, end) == selected);
    assert(group_baseline(limit, caps, keys, source_info, i, end) == baseline);
    if exists|j: int|
        0 <= j < keys.len() && j != i && #[trigger] shares_source(keys, source_info, i, j) {
        let j = choose|j: int|
            0 <= j < keys.len() && j != i && #[trigger] shares_source(keys, source_info, i, j);
        lemma_two_sharers(keys, source_info, i, j, end);
    }
}

} // verus!
