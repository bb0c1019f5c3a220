//! Exact-content groups of logical textures.

use crate::atlas::types::LayoutItem;
use crate::ordered_map::{
    entries_map, key_position, keys_ascend, lemma_key_position, lemma_update_entry, lists_key,
    OrderedTextMap,
};
use crate::text::{
    ascending, lemma_text_order, lemma_text_transitive, str_eq, str_lt, text_le, text_lt, texts,
};
use crate::text_map::TextMap;
use vstd::prelude::*;

verus! {

/// How logical keys resolve to the key that provides their content.
pub enum AtlasAliasRelation {
    /// Every key provides for itself.
    Identity,
    /// A dense map; a key without an entry is an error.
    Complete(TextMap<String>),
}

/// The key that provides the content of `key`, where the relation has one.
pub open spec fn provider_in(relation: AtlasAliasRelation, key: Seq<char>) -> Option<Seq<char>> {
    match relation {
        AtlasAliasRelation::Identity => Some(key),
        AtlasAliasRelation::Complete(aliases) => if aliases@.dom().contains(key) {
            Some(aliases@[key]@)
        } else {
            None
        },
    }
}

/// A dense alias map has no entry for the key.
#[derive(Debug)]
pub struct AliasMissing {
    pub key: String,
}

impl AliasMissing {
    /// What is missing, in words.
    pub fn message(&self) -> (r: String)
        ensures
            r@ == "atlas alias map missing key '"@ + self.key@ + "'"@,
    {
        let mut text = "atlas alias map missing key '".to_owned();
        text.append(self.key.as_str());
        text.append("'");
        text
    }
}

/// Two relations are of the same form and resolve alike.
pub open spec fn same_relation(a: AtlasAliasRelation, b: AtlasAliasRelation) -> bool {
    match (a, b) {
        (AtlasAliasRelation::Identity, AtlasAliasRelation::Identity) => true,
        (AtlasAliasRelation::Complete(x), AtlasAliasRelation::Complete(y)) => {
            &&& x@.dom() == y@.dom()
            &&& forall|key: Seq<char>| #[trigger] x@.dom().contains(key) ==> x@[key]@ == y@[key]@
        },
        _ => false,
    }
}

impl AtlasAliasRelation {
    pub open spec fn wf(&self) -> bool {
        self matches AtlasAliasRelation::Complete(aliases) ==> aliases.wf()
    }

    /// Resolves `key` without copying it.
    ///
    /// A missing entry of a dense map is an error, not identity.
    pub fn resolve<'a>(&'a self, key: &'a str) -> (r: Result<&'a str, AliasMissing>)
        requires
            self.wf(),
        ensures
            match r {
                Ok(provider) => provider_in(*self, key@) == Some(provider@),
                Err(e) => provider_in(*self, key@) is None && e.key@ == key@,
            },
    {
        match self {
            AtlasAliasRelation::Identity => Ok(key),
            AtlasAliasRelation::Complete(aliases) => match aliases.get(key) {
                Some(provider) => Ok(provider.as_str()),
                None => Err(AliasMissing { key: key.to_owned() }),
            },
        }
    }

    /// Whether two relations are of the same form and resolve alike.
    pub fn same_as(&self, other: &Self) -> (r: bool)
        requires
            self.wf(),
            other.wf(),
        ensures
            r == same_relation(*self, *other),
    {
        match (self, other) {
            (AtlasAliasRelation::Identity, AtlasAliasRelation::Identity) => true,
            (AtlasAliasRelation::Complete(x), AtlasAliasRelation::Complete(y)) => {
                let same = aliases_within(x, y) && aliases_within(y, x);
                proof {
                    if same {
                        assert(x@.dom() =~= y@.dom());
                    } else if x@.dom() == y@.dom() && forall|key: Seq<char>| #[trigger]
                        x@.dom().contains(key) ==> x@[key]@ == y@[key]@ {
                        assert(forall|key: Seq<char>| #[trigger]
                            y@.dom().contains(key) ==> x@.dom().contains(key) && x@[key]@
                                == y@[key]@);
                    }
                }
                same
            },
            _ => false,
        }
    }
}

/// Whether every alias of `x` is one of `y`.
fn aliases_within(x: &TextMap<String>, y: &TextMap<String>) -> (r: bool)
    requires
        x.wf(),
        y.wf(),
    ensures
        r == forall|key: Seq<char>| #[trigger]
            x@.dom().contains(key) ==> y@.dom().contains(key) && x@[key]@ == y@[key]@,
{
    proof {
        x.lemma_listed();
    }
    let mut i: usize = 0;
    while i < x.len()
        invariant
            x.wf(),
            y.wf(),
            i <= x.listed().len(),
            forall|k: int|
                0 <= k < x.listed().len() ==> x@.dom().contains((#[trigger] x.listed()[k]).0@)
                    && x@[x.listed()[k].0@] == x.listed()[k].1,
            forall|k: int|
                0 <= k < i ==> y@.dom().contains((#[trigger] x.listed()[k]).0@)
                    && x.listed()[k].1@ == y@[x.listed()[k].0@]@,
        decreases x.listed().len() - i,
    {
        let ghost key = x.listed()[i as int].0@;
        let same = match y.get(x.key_at(i).as_str()) {
            Some(provider) => str_eq(provider.as_str(), x.value_at(i).as_str()),
            None => false,
        };
        if !same {
            assert(x@.dom().contains(key));
            return false;
        }
        i = i + 1;
    }
    proof {
        assert forall|key: Seq<char>| #[trigger] x@.dom().contains(key) implies y@.dom().contains(
            key,
        ) && x@[key]@ == y@[key]@ by {
            let k = choose|k: int| 0 <= k < x.listed().len() && (#[trigger] x.listed()[k]).0@ == key;
            assert(y@.dom().contains(x.listed()[k].0@));
        }
    }
    true
}

/// The provider of a logical key through both alias tiers.
pub open spec fn provider_of(
    tier0: AtlasAliasRelation,
    tier1: AtlasAliasRelation,
    key: Seq<char>,
) -> Option<Seq<char>> {
    match provider_in(tier0, key) {
        Some(middle) => provider_in(tier1, middle),
        None => None,
    }
}

/// Logical textures with the same prepared content.
#[derive(Debug)]
pub struct PreparedAtlasGroup {
    pub group_key: String,
    pub logical_keys: Vec<String>,
    pub item: LayoutItem,
    pub content_fingerprint: [u8; 32],
}

/// Why groups could not be built.
#[derive(Debug)]
pub enum GroupError {
    /// The source alias map has no entry for the key.
    Tier0AliasMissing { key: String },
    /// The decoded alias map has no entry for the key's source provider.
    Tier1AliasMissing { key: String, via: String },
    LayoutItemMissing { provider: String },
    FingerprintMissing { provider: String },
}

/// The failure in words.
pub open spec fn group_error_text(error: GroupError) -> Seq<char> {
    match error {
        GroupError::Tier0AliasMissing { key } => "prepared atlas tier-0 alias missing for "@ + key@,
        GroupError::Tier1AliasMissing { key, via } => "prepared atlas tier-1 alias missing for "@
            + key@ + " (via tier-0 provider "@ + via@ + ")"@,
        GroupError::LayoutItemMissing { provider } => "prepared atlas layout item missing for "@
            + provider@,
        GroupError::FingerprintMissing { provider } =>
        "prepared atlas content fingerprint missing for "@ + provider@,
    }
}

impl GroupError {
    /// What is missing, in words.
    pub fn message(&self) -> (r: String)
        ensures
            r@ == group_error_text(*self),
    {
        match self {
            GroupError::Tier0AliasMissing { key } => {
                "prepared atlas tier-0 alias missing for ".to_owned().concat(key.as_str())
            },
            GroupError::Tier1AliasMissing { key, via } => {
                let mut text = "prepared atlas tier-1 alias missing for ".to_owned();
                text.append(key.as_str());
                text.append(" (via tier-0 provider ");
                text.append(via.as_str());
                text.append(")");
                text
            },
            GroupError::LayoutItemMissing { provider } => {
                "prepared atlas layout item missing for ".to_owned().concat(provider.as_str())
            },
            GroupError::FingerprintMissing { provider } => {
                "prepared atlas content fingerprint missing for ".to_owned().concat(
                    provider.as_str(),
                )
            },
        }
    }
}

/// The keys of `keys` that `provider` provides for, in order.
pub open spec fn keys_provided(
    keys: Seq<String>,
    tier0: AtlasAliasRelation,
    tier1: AtlasAliasRelation,
    provider: Seq<char>,
) -> Seq<String>
    decreases keys.len(),
{
    if keys.len() == 0 {
        Seq::empty()
    } else {
        let before = keys_provided(keys.drop_last(), tier0, tier1, provider);
        if provider_of(tier0, tier1, keys.last()@) == Some(provider) {
            before.push(keys.last())
        } else {
            before
        }
    }
}

/// Position of the last item with the key, if there is one.
pub open spec fn last_item(items: Seq<LayoutItem>, key: Seq<char>) -> Option<int>
    decreases items.len(),
{
    if items.len() == 0 {
        None
    } else if items.last().key@ == key {
        Some(items.len() - 1)
    } else {
        last_item(items.drop_last(), key)
    }
}

/// The group that collects what `provider` provides for.
pub open spec fn is_group_of(
    group: PreparedAtlasGroup,
    keys: Seq<String>,
    tier0: AtlasAliasRelation,
    tier1: AtlasAliasRelation,
    items: Seq<LayoutItem>,
    content_fingerprints: Map<Seq<char>, [u8; 32]>,
) -> bool {
    let provider = group.item.key@;
    &&& group.logical_keys@ == keys_provided(keys, tier0, tier1, provider)
    &&& group.logical_keys@.len() > 0
    &&& group.group_key@ == group.logical_keys@[0]@
    &&& last_item(items, provider) is Some
    &&& group.item == items[last_item(items, provider)->0]
    &&& content_fingerprints.dom().contains(provider)
    &&& group.content_fingerprint == content_fingerprints[provider]
}

/// Some group's provider is `provider`.
pub open spec fn has_provider(groups: Seq<PreparedAtlasGroup>, provider: Seq<char>) -> bool {
    exists|g: int| 0 <= g < groups.len() && (#[trigger] groups[g]).item.key@ == provider
}

/// Providers of the groups in order.
pub open spec fn providers(groups: Seq<PreparedAtlasGroup>) -> Seq<Seq<char>> {
    groups.map_values(|group: PreparedAtlasGroup| group.item.key@)
}

/// Every key before `end` resolves through both tiers.
pub open spec fn all_resolve(
    keys: Seq<String>,
    end: int,
    tier0: AtlasAliasRelation,
    tier1: AtlasAliasRelation,
) -> bool {
    forall|i: int| 0 <= i < end ==> provider_of(tier0, tier1, (#[trigger] keys[i])@) is Some
}

/// Some key resolves to `provider`.
pub open spec fn provides(
    keys: Seq<String>,
    tier0: AtlasAliasRelation,
    tier1: AtlasAliasRelation,
    provider: Seq<char>,
) -> bool {
    exists|i: int|
        0 <= i < keys.len() && provider_of(tier0, tier1, (#[trigger] keys[i])@) == Some(provider)
}

/// What a provider needs for its group is at hand.
pub open spec fn provider_prepared(
    items: Seq<LayoutItem>,
    content_fingerprints: Map<Seq<char>, [u8; 32]>,
    provider: Seq<char>,
) -> bool {
    last_item(items, provider) is Some && content_fingerprints.dom().contains(provider)
}

/// `provider` is the first provider in key order whose item or fingerprint is missing.
pub open spec fn is_first_unprepared(
    keys: Seq<String>,
    tier0: AtlasAliasRelation,
    tier1: AtlasAliasRelation,
    items: Seq<LayoutItem>,
    content_fingerprints: Map<Seq<char>, [u8; 32]>,
    provider: Seq<char>,
) -> bool {
    &&& all_resolve(keys, keys.len() as int, tier0, tier1)
    &&& provides(keys, tier0, tier1, provider)
    &&& !provider_prepared(items, content_fingerprints, provider)
    &&& forall|other: Seq<char>| #[trigger]
        provides(keys, tier0, tier1, other) && text_lt(other, provider) ==> provider_prepared(
            items,
            content_fingerprints,
            other,
        )
}

/// The failure names the first thing that is missing.
pub open spec fn explains_failure(
    error: GroupError,
    keys: Seq<String>,
    tier0: AtlasAliasRelation,
    tier1: AtlasAliasRelation,
    items: Seq<LayoutItem>,
    content_fingerprints: Map<Seq<char>, [u8; 32]>,
) -> bool {
    match error {
        GroupError::Tier0AliasMissing { key } => exists|i: int|
            {
                &&& 0 <= i < keys.len()
                &&& (#[trigger] keys[i])@ == key@
                &&& all_resolve(keys, i, tier0, tier1)
                &&& provider_in(tier0, key@) is None
            },
        GroupError::Tier1AliasMissing { key, via } => exists|i: int|
            {
                &&& 0 <= i < keys.len()
                &&& (#[trigger] keys[i])@ == key@
                &&& all_resolve(keys, i, tier0, tier1)
                &&& provider_in(tier0, key@) == Some(via@)
                &&& provider_in(tier1, via@) is None
            },
        GroupError::LayoutItemMissing { provider } => {
            &&& is_first_unprepared(
                keys,
                tier0,
                tier1,
                items,
                content_fingerprints,
                provider@,
            )
            &&& last_item(items, provider@) is None
        },
        GroupError::FingerprintMissing { provider } => {
            &&& is_first_unprepared(
                keys,
                tier0,
                tier1,
                items,
                content_fingerprints,
                provider@,
            )
            &&& last_item(items, provider@) is Some
        },
    }
}

proof fn lemma_provided_step(
    keys: Seq<String>,
    i: int,
    tier0: AtlasAliasRelation,
    tier1: AtlasAliasRelation,
    provider: Seq<char>,
)
    requires
        0 <= i < keys.len(),
    ensures
        keys_provided(keys.take(i + 1), tier0, tier1, provider) == if provider_of(
            tier0,
            tier1,
            keys[i]@,
        ) == Some(provider) {
            keys_provided(keys.take(i), tier0, tier1, provider).push(keys[i])
        } else {
            keys_provided(keys.take(i), tier0, tier1, provider)
        },
{
    assert(keys.take(i + 1).drop_last() =~= keys.take(i));
    assert(keys.take(i + 1).last() == keys[i]);
}

/// A provider provides for a key exactly where it has keys listed.
pub proof fn lemma_provides(
    keys: Seq<String>,
    tier0: AtlasAliasRelation,
    tier1: AtlasAliasRelation,
    provider: Seq<char>,
)
    ensures
        provides(keys, tier0, tier1, provider) <==> keys_provided(
            keys,
            tier0,
            tier1,
            provider,
        ).len() > 0,
        forall|k: String| #[trigger]
            keys_provided(keys, tier0, tier1, provider).contains(k) <==> keys.contains(k)
                && provider_of(tier0, tier1, k@) == Some(provider),
    decreases keys.len(),
{
    let listed = keys_provided(keys, tier0, tier1, provider);
    if keys.len() > 0 {
        lemma_provides(keys.drop_last(), tier0, tier1, provider);
        let before = keys_provided(keys.drop_last(), tier0, tier1, provider);
        let last = keys.last();
        assert forall|k: String| #[trigger] listed.contains(k) <==> keys.contains(k) && provider_of(
            tier0,
            tier1,
            k@,
        ) == Some(provider) by {
            if listed.contains(k) {
                let i = choose|i: int| 0 <= i < listed.len() && listed[i] == k;
                if i < before.len() {
                    assert(before[i] == k);
                    assert(before.contains(k));
                    let j = choose|j: int| 0 <= j < keys.drop_last().len() && keys.drop_last()[j] == k;
                    assert(keys[j] == k);
                } else {
                    assert(keys[keys.len() - 1] == k);
                }
            }
            if keys.contains(k) && provider_of(tier0, tier1, k@) == Some(provider) {
                let j = choose|j: int| 0 <= j < keys.len() && keys[j] == k;
                if j < keys.len() - 1 {
                    assert(keys.drop_last()[j] == k);
                    assert(before.contains(k));
                    let i = choose|i: int| 0 <= i < before.len() && before[i] == k;
                    assert(listed[i] == k);
                } else {
                    assert(listed[listed.len() - 1] == k);
                }
            }
        }
        if provides(keys, tier0, tier1, provider) {
            let i = choose|i: int|
                0 <= i < keys.len() && provider_of(tier0, tier1, (#[trigger] keys[i])@) == Some(
                    provider,
                );
            assert(keys.contains(keys[i]));
            assert(listed.contains(keys[i]));
        }
        if listed.len() > 0 {
            assert(listed.contains(listed[0]));
            let j = choose|j: int| 0 <= j < keys.len() && keys[j] == listed[0];
            assert(provider_of(tier0, tier1, keys[j]@) == Some(provider));
        }
    }
}

/// Keys listed in ascending order stay ascending within each group.
pub proof fn lemma_provided_ascending(
    keys: Seq<String>,
    tier0: AtlasAliasRelation,
    tier1: AtlasAliasRelation,
    provider: Seq<char>,
)
    requires
        ascending(texts(keys)),
    ensures
        ascending(texts(keys_provided(keys, tier0, tier1, provider))),
    decreases keys.len(),
{
    if keys.len() > 0 {
        let before = keys_provided(keys.drop_last(), tier0, tier1, provider);
        let listed = keys_provided(keys, tier0, tier1, provider);
        assert(texts(keys.drop_last()) =~= texts(keys).drop_last());
        lemma_provided_ascending(keys.drop_last(), tier0, tier1, provider);
        lemma_provides(keys.drop_last(), tier0, tier1, provider);
        assert forall|i: int, j: int| 0 <= i < j < listed.len() implies text_lt(
            #[trigger] texts(listed)[i],
            #[trigger] texts(listed)[j],
        ) by {
            if j < before.len() {
                assert(text_lt(texts(before)[i], texts(before)[j]));
            } else {
                assert(before.contains(before[i]));
                let a = choose|a: int|
                    0 <= a < keys.drop_last().len() && keys.drop_last()[a] == before[i];
                assert(text_lt(texts(keys)[a], texts(keys)[keys.len() - 1]));
            }
        }
    }
}

proof fn lemma_last_item(items: Seq<LayoutItem>, i: int, key: Seq<char>)
    requires
        0 <= i < items.len(),
    ensures
        last_item(items.take(i + 1), key) == if items[i].key@ == key {
            Some(i)
        } else {
            last_item(items.take(i), key)
        },
{
    assert(items.take(i + 1).drop_last() =~= items.take(i));
    assert(items.take(i + 1).last() == items[i]);
}

pub proof fn lemma_last_item_bound(items: Seq<LayoutItem>, key: Seq<char>)
    ensures
        last_item(items, key) matches Some(i) ==> 0 <= i < items.len() && items[i].key@ == key,
    decreases items.len(),
{
    if items.len() > 0 && items.last().key@ != key {
        lemma_last_item_bound(items.drop_last(), key);
    }
}

/// Positions of the items by key; of items with the same key the last one stands.
fn item_index(items: &[LayoutItem]) -> (r: TextMap<usize>)
    ensures
        r.wf(),
        forall|key: Seq<char>| #[trigger]
            r@.dom().contains(key) <==> last_item(items@, key) is Some,
        forall|key: Seq<char>| #[trigger]
            r@.dom().contains(key) ==> r@[key] as int == last_item(items@, key)->0 && r@[key]
                < items@.len() && items@[r@[key] as int].key@ == key,
{
    let mut index: TextMap<usize> = TextMap::new();
    let mut i: usize = 0;
    while i < items.len()
        invariant
            i <= items.len(),
            index.wf(),
            forall|key: Seq<char>| #[trigger]
                index@.dom().contains(key) <==> last_item(items@.take(i as int), key) is Some,
            forall|key: Seq<char>| #[trigger]
                index@.dom().contains(key) ==> index@[key] as int == last_item(
                    items@.take(i as int),
                    key,
                )->0,
        decreases items.len() - i,
    {
        index.insert(items[i].key.clone(), i);
        proof {
            assert forall|key: Seq<char>| last_item(items@.take(i + 1), key) == if items@[i as int].key@
                == key {
                Some(i as int)
            } else {
                last_item(items@.take(i as int), key)
            } by {
                lemma_last_item(items@, i as int, key);
            }
        }
        i = i + 1;
    }
    proof {
        assert(items@.take(i as int) =~= items@);
        assert forall|key: Seq<char>| #[trigger] index@.dom().contains(key) implies index@[key]
            < items@.len() && items@[index@[key] as int].key@ == key by {
            lemma_last_item_bound(items@, key);
        }
    }
    index
}

/// The keys of each provider, by provider.
fn keys_by_provider(
    keys: &[String],
    tier0: &AtlasAliasRelation,
    tier1: &AtlasAliasRelation,
) -> (r: Result<OrderedTextMap<Vec<String>>, GroupError>)
    requires
        tier0.wf(),
        tier1.wf(),
    ensures
        match r {
            Ok(map) => {
                &&& map.wf()
                &&& all_resolve(keys@, keys@.len() as int, *tier0, *tier1)
                &&& forall|p: Seq<char>| #[trigger]
                    map@.dom().contains(p) <==> provides(keys@, *tier0, *tier1, p)
                &&& forall|p: Seq<char>| #[trigger]
                    map@.dom().contains(p) ==> map@[p]@ == keys_provided(keys@, *tier0, *tier1, p)
            },
            Err(e) => (e is Tier0AliasMissing || e is Tier1AliasMissing) && explains_failure(
                e,
                keys@,
                *tier0,
                *tier1,
                Seq::empty(),
                Map::empty(),
            ),
        },
{
    let mut map: OrderedTextMap<Vec<String>> = OrderedTextMap::new();
    let mut i: usize = 0;
    while i < keys.len()
        invariant
            i <= keys.len(),
            tier0.wf(),
            tier1.wf(),
            map.wf(),
            all_resolve(keys@, i as int, *tier0, *tier1),
            forall|p: Seq<char>| #[trigger]
                map@.dom().contains(p) <==> keys_provided(
                    keys@.take(i as int),
                    *tier0,
                    *tier1,
                    p,
                ).len() > 0,
            forall|p: Seq<char>| #[trigger]
                map@.dom().contains(p) ==> map@[p]@ == keys_provided(
                    keys@.take(i as int),
                    *tier0,
                    *tier1,
                    p,
                ),
        decreases keys.len() - i,
    {
        let key = &keys[i];
        let middle = match tier0.resolve(key.as_str()) {
            Ok(middle) => middle,
            Err(_) => {
                return Err(GroupError::Tier0AliasMissing { key: key.clone() });
            },
        };
        let provider = match tier1.resolve(middle) {
            Ok(provider) => provider,
            Err(_) => {
                return Err(
                    GroupError::Tier1AliasMissing { key: key.clone(), via: middle.to_string() },
                );
            },
        };
        let ghost before = map@;
        proof {
            assert forall|p: Seq<char>| #[trigger]
                keys_provided(keys@.take(i + 1), *tier0, *tier1, p) == if p == provider@ {
                    keys_provided(keys@.take(i as int), *tier0, *tier1, p).push(keys@[i as int])
                } else {
                    keys_provided(keys@.take(i as int), *tier0, *tier1, p)
                } by {
                lemma_provided_step(keys@, i as int, *tier0, *tier1, p);
            }
        }
        match map.position(provider) {
            Some(position) => {
                let ghost listed = map.listed();
                let slot = map.value_at_mut(position);
                slot.push(key.clone());
                proof {
                    let value = map.listed()[position as int].1;
                    lemma_key_position(listed, position as int);
                    lemma_update_entry(listed, position as int, value);
                    assert(map@ == before.insert(provider@, value));
                }
            },
            None => {
                let mut fresh: Vec<String> = Vec::new();
                fresh.push(key.clone());
                map.insert(provider.to_string(), fresh);
                proof {
                    assert(keys_provided(keys@.take(i as int), *tier0, *tier1, provider@).len()
                        == 0);
                    assert(keys_provided(keys@.take(i as int), *tier0, *tier1, provider@) =~= Seq::empty());
                }
            },
        }
        i = i + 1;
    }
    proof {
        assert(keys@.take(i as int) =~= keys@);
        assert forall|p: Seq<char>| #[trigger]
            map@.dom().contains(p) <==> provides(keys@, *tier0, *tier1, p) by {
            lemma_provides(keys@, *tier0, *tier1, p);
        }
    }
    Ok(map)
}

/// Builds sorted groups by resolving each logical key through both alias tiers.
///
/// Alias maps are dense and fail closed on a missing entry.
pub fn build_prepared_groups(
    keys: &[String],
    tier0: &AtlasAliasRelation,
    tier1: &AtlasAliasRelation,
    items: &[LayoutItem],
    content_fingerprints: &TextMap<[u8; 32]>,
) -> (r: Result<Vec<PreparedAtlasGroup>, GroupError>)
    requires
        tier0.wf(),
        tier1.wf(),
        content_fingerprints.wf(),
    ensures
        match r {
            Ok(groups) => {
                &&& all_resolve(keys@, keys@.len() as int, *tier0, *tier1)
                &&& ascending(providers(groups@))
                &&& forall|g: int|
                    0 <= g < groups@.len() ==> is_group_of(
                        #[trigger] groups@[g],
                        keys@,
                        *tier0,
                        *tier1,
                        items@,
                        content_fingerprints@,
                    )
                &&& forall|p: Seq<char>| #[trigger]
                    provides(keys@, *tier0, *tier1, p) <==> has_provider(groups@, p)
            },
            Err(e) => explains_failure(e, keys@, *tier0, *tier1, items@, content_fingerprints@),
        },
{
    let map = match keys_by_provider(keys, tier0, tier1) {
        Ok(map) => map,
        Err(e) => {
            return Err(e);
        },
    };
    let index = item_index(items);
    let mut groups: Vec<PreparedAtlasGroup> = Vec::new();
    let mut i: usize = 0;
    while i < map.len()
        invariant
            i <= map.listed().len(),
            map.wf(),
            index.wf(),
            content_fingerprints.wf(),
            all_resolve(keys@, keys@.len() as int, *tier0, *tier1),
            forall|p: Seq<char>| #[trigger]
                map@.dom().contains(p) <==> provides(keys@, *tier0, *tier1, p),
            forall|p: Seq<char>| #[trigger]
                map@.dom().contains(p) ==> map@[p]@ == keys_provided(keys@, *tier0, *tier1, p),
            forall|key: Seq<char>| #[trigger]
                index@.dom().contains(key) <==> last_item(items@, key) is Some,
            forall|key: Seq<char>| #[trigger]
                index@.dom().contains(key) ==> index@[key] as int == last_item(items@, key)->0
                    && index@[key] < items@.len() && items@[index@[key] as int].key@ == key,
            groups@.len() == i,
            forall|g: int|
                0 <= g < i ==> (#[trigger] groups@[g]).item.key@ == map.listed()[g].0@
                    && is_group_of(
                    groups@[g],
                    keys@,
                    *tier0,
                    *tier1,
                    items@,
                    content_fingerprints@,
                ),
            forall|g: int|
                0 <= g < i ==> provider_prepared(
                    items@,
                    content_fingerprints@,
                    (#[trigger] map.listed()[g]).0@,
                ),
        decreases map.listed().len() - i,
    {
        let provider = map.key_at(i);
        let logical_keys = map.value_at(i);
        proof {
            lemma_key_position(map.listed(), i as int);
            assert(map@.dom().contains(provider@));
            lemma_provides(keys@, *tier0, *tier1, provider@);
        }
        let position: usize = match index.get(provider.as_str()) {
            Some(position) => *position,
            None => {
                proof {
                    lemma_first_missing(
                        map.listed(),
                        i as int,
                        keys@,
                        *tier0,
                        *tier1,
                        items@,
                        content_fingerprints@,
                    );
                }
                return Err(GroupError::LayoutItemMissing { provider: provider.clone() });
            },
        };
        let content_fingerprint = match content_fingerprints.get(provider.as_str()) {
            Some(fingerprint) => *fingerprint,
            None => {
                proof {
                    lemma_first_missing(
                        map.listed(),
                        i as int,
                        keys@,
                        *tier0,
                        *tier1,
                        items@,
                        content_fingerprints@,
                    );
                }
                return Err(GroupError::FingerprintMissing { provider: provider.clone() });
            },
        };
        let copied = logical_keys.clone();
        assert(copied@ =~= logical_keys@);
        groups.push(
            PreparedAtlasGroup {
                group_key: logical_keys[0].clone(),
                logical_keys: copied,
                item: items[position].clone(),
                content_fingerprint,
            },
        );
        i = i + 1;
    }
    proof {
        assert forall|a: int, b: int| 0 <= a < b < groups@.len() implies text_lt(
            #[trigger] providers(groups@)[a],
            #[trigger] providers(groups@)[b],
        ) by {
            assert(groups@[a].item.key@ == map.listed()[a].0@);
            assert(groups@[b].item.key@ == map.listed()[b].0@);
        }
        assert forall|p: Seq<char>| #[trigger]
            provides(keys@, *tier0, *tier1, p) <==> has_provider(groups@, p) by {
            assert(map@.dom().contains(p) <==> lists_key(map.listed(), p));
            if lists_key(map.listed(), p) {
                let k = key_position(map.listed(), p);
                assert(groups@[k].item.key@ == p);
            }
            if has_provider(groups@, p) {
                let g = choose|g: int|
                    0 <= g < groups@.len() && (#[trigger] groups@[g]).item.key@ == p;
                assert(map.listed()[g].0@ == p);
            }
        }
    }
    Ok(groups)
}

proof fn lemma_first_missing(
    listed: Seq<(String, Vec<String>)>,
    i: int,
    keys: Seq<String>,
    tier0: AtlasAliasRelation,
    tier1: AtlasAliasRelation,
    items: Seq<LayoutItem>,
    content_fingerprints: Map<Seq<char>, [u8; 32]>,
)
    requires
        keys_ascend(listed),
        0 <= i < listed.len(),
        all_resolve(keys, keys.len() as int, tier0, tier1),
        forall|p: Seq<char>| #[trigger]
            entries_map(listed).dom().contains(p) <==> provides(keys, tier0, tier1, p),
        forall|g: int|
            0 <= g < i ==> provider_prepared(
                items,
                content_fingerprints,
                (#[trigger] listed[g]).0@,
            ),
        !provider_prepared(items, content_fingerprints, listed[i].0@),
    ensures
        is_first_unprepared(keys, tier0, tier1, items, content_fingerprints, listed[i].0@),
{
    let provider = listed[i].0@;
    lemma_key_position(listed, i);
    assert(entries_map(listed).dom().contains(provider));
    assert forall|other: Seq<char>| #[trigger]
        provides(keys, tier0, tier1, other) && text_lt(other, provider) implies provider_prepared(
        items,
        content_fingerprints,
        other,
    ) by {
        assert(entries_map(listed).dom().contains(other));
        let k = key_position(listed, other);
        assert(lists_key(listed, other));
        if k > i {
            assert(text_lt(listed[i].0@, listed[k].0@));
            lemma_text_order(listed[i].0@, listed[k].0@);
        }
    }
}

/// The key is among `keys`.
pub open spec fn lists_text(keys: Seq<String>, key: Seq<char>) -> bool {
    exists|i: int| 0 <= i < keys.len() && (#[trigger] keys[i])@ == key
}

/// Every group lists its keys in ascending order, is named after the first, and holds the key of
/// its own item.
pub open spec fn is_group(group: PreparedAtlasGroup) -> bool {
    &&& group.logical_keys@.len() > 0
    &&& ascending(texts(group.logical_keys@))
    &&& group.group_key@ == group.logical_keys@[0]@
    &&& lists_text(group.logical_keys@, group.item.key@)
}

/// The groups partition their logical keys.
pub open spec fn groups_partition(groups: Seq<PreparedAtlasGroup>) -> bool {
    &&& forall|g: int| 0 <= g < groups.len() ==> is_group(#[trigger] groups[g])
    &&& forall|g: int, h: int, key: Seq<char>|
        #![trigger lists_text(groups[g].logical_keys@, key), lists_text(groups[h].logical_keys@, key)]
        0 <= g < groups.len() && 0 <= h < groups.len() && lists_text(groups[g].logical_keys@, key)
            && lists_text(groups[h].logical_keys@, key) ==> g == h
}

/// Every provider of a listed key is listed too and provides for itself.
pub open spec fn providers_settle(
    keys: Seq<String>,
    tier0: AtlasAliasRelation,
    tier1: AtlasAliasRelation,
) -> bool {
    forall|p: Seq<char>| #[trigger]
        provides(keys, tier0, tier1, p) ==> lists_text(keys, p) && provider_of(tier0, tier1, p)
            == Some(p)
}

/// Groups built from ascending keys partition them, where providers provide for themselves.
pub proof fn lemma_groups_partition(
    groups: Seq<PreparedAtlasGroup>,
    keys: Seq<String>,
    tier0: AtlasAliasRelation,
    tier1: AtlasAliasRelation,
    items: Seq<LayoutItem>,
    content_fingerprints: Map<Seq<char>, [u8; 32]>,
)
    requires
        ascending(texts(keys)),
        providers_settle(keys, tier0, tier1),
        ascending(providers(groups)),
        forall|g: int|
            0 <= g < groups.len() ==> is_group_of(
                #[trigger] groups[g],
                keys,
                tier0,
                tier1,
                items,
                content_fingerprints,
            ),
        forall|p: Seq<char>| #[trigger]
            provides(keys, tier0, tier1, p) <==> has_provider(groups, p),
    ensures
        groups_partition(groups),
{
    assert forall|g: int| 0 <= g < groups.len() implies is_group(#[trigger] groups[g]) by {
        let group = groups[g];
        let p = group.item.key@;
        assert(is_group_of(group, keys, tier0, tier1, items, content_fingerprints));
        lemma_provided_ascending(keys, tier0, tier1, p);
        lemma_provides(keys, tier0, tier1, p);
        assert(has_provider(groups, p));
        assert(provides(keys, tier0, tier1, p));
        let i = choose|i: int| 0 <= i < keys.len() && (#[trigger] keys[i])@ == p;
        assert(keys.contains(keys[i]));
        assert(group.logical_keys@.contains(keys[i]));
        let a = choose|a: int|
            0 <= a < group.logical_keys@.len() && group.logical_keys@[a] == keys[i];
        assert(group.logical_keys@[a]@ == p);
    }
    assert forall|g: int, h: int, key: Seq<char>|
        #![trigger lists_text(groups[g].logical_keys@, key), lists_text(groups[h].logical_keys@, key)]
        0 <= g < groups.len() && 0 <= h < groups.len() && lists_text(groups[g].logical_keys@, key)
            && lists_text(groups[h].logical_keys@, key) implies g == h by {
        lemma_provides(keys, tier0, tier1, groups[g].item.key@);
        lemma_provides(keys, tier0, tier1, groups[h].item.key@);
        let a = choose|a: int|
            0 <= a < groups[g].logical_keys@.len() && (#[trigger] groups[g].logical_keys@[a])@
                == key;
        let b = choose|b: int|
            0 <= b < groups[h].logical_keys@.len() && (#[trigger] groups[h].logical_keys@[b])@
                == key;
        assert(is_group_of(groups[g], keys, tier0, tier1, items, content_fingerprints));
        assert(is_group_of(groups[h], keys, tier0, tier1, items, content_fingerprints));
        assert(groups[g].logical_keys@.contains(groups[g].logical_keys@[a]));
        assert(groups[h].logical_keys@.contains(groups[h].logical_keys@[b]));
        assert(groups[g].item.key@ == groups[h].item.key@);
        if g < h {
            assert(text_lt(providers(groups)[g], providers(groups)[h]));
        } else if h < g {
            assert(text_lt(providers(groups)[h], providers(groups)[g]));
        }
    }
}

/// Whether `key` is among `keys`.
pub fn holds_text(keys: &[String], key: &str) -> (r: bool)
    ensures
        r == lists_text(keys@, key@),
{
    let mut i: usize = 0;
    while i < keys.len()
        invariant
            i <= keys.len(),
            forall|k: int| 0 <= k < i ==> (#[trigger] keys@[k])@ != key@,
        decreases keys.len() - i,
    {
        if str_eq(keys[i].as_str(), key) {
            assert(keys@[i as int]@ == key@);
            return true;
        }
        i = i + 1;
    }
    false
}

/// Keys that two ascending lists share, counted by walking both.
pub open spec fn shared_count(left: Seq<Seq<char>>, right: Seq<Seq<char>>) -> nat
    decreases left.len() + right.len(),
{
    if left.len() == 0 || right.len() == 0 {
        0
    } else if left[0] == right[0] {
        1 + shared_count(left.drop_first(), right.drop_first())
    } else if text_le(left[0], right[0]) {
        shared_count(left.drop_first(), right)
    } else {
        shared_count(left, right.drop_first())
    }
}

/// Walking two ascending lists counts exactly the keys that both hold.
pub proof fn lemma_shared_count(left: Seq<Seq<char>>, right: Seq<Seq<char>>)
    requires
        ascending(left),
        ascending(right),
    ensures
        shared_count(left, right) == left.to_set().intersect(right.to_set()).len(),
    decreases left.len() + right.len(),
{
    let both = left.to_set().intersect(right.to_set());
    vstd::seq_lib::seq_to_set_is_finite(left);
    vstd::seq_lib::seq_to_set_is_finite(right);
    if left.len() == 0 || right.len() == 0 {
        assert(both =~= Set::empty());
    } else {
        let l1 = left.drop_first();
        let r1 = right.drop_first();
        assert(ascending(l1)) by {
            assert forall|i: int, j: int| 0 <= i < j < l1.len() implies text_lt(
                #[trigger] l1[i],
                #[trigger] l1[j],
            ) by {
                assert(text_lt(left[i + 1], left[j + 1]));
            }
        }
        assert(ascending(r1)) by {
            assert forall|i: int, j: int| 0 <= i < j < r1.len() implies text_lt(
                #[trigger] r1[i],
                #[trigger] r1[j],
            ) by {
                assert(text_lt(right[i + 1], right[j + 1]));
            }
        }
        vstd::seq_lib::seq_to_set_is_finite(l1);
        vstd::seq_lib::seq_to_set_is_finite(r1);
        assert forall|x: Seq<char>| left.contains(x) <==> x == left[0] || l1.contains(x) by {
            lemma_first_or_rest(left, x);
        }
        assert forall|x: Seq<char>| right.contains(x) <==> x == right[0] || r1.contains(x) by {
            lemma_first_or_rest(right, x);
        }
        assert forall|x: Seq<char>| l1.contains(x) implies text_lt(left[0], x) by {
            let i = choose|i: int| 0 <= i < l1.len() && l1[i] == x;
            assert(text_lt(left[0], left[i + 1]));
        }
        assert forall|x: Seq<char>| r1.contains(x) implies text_lt(right[0], x) by {
            let i = choose|i: int| 0 <= i < r1.len() && r1[i] == x;
            assert(text_lt(right[0], right[i + 1]));
        }
        lemma_text_order(left[0], right[0]);
        if left[0] == right[0] {
            lemma_shared_count(l1, r1);
            let rest = l1.to_set().intersect(r1.to_set());
            assert(both =~= rest.insert(left[0]));
            assert(!rest.contains(left[0]));
        } else if text_le(left[0], right[0]) {
            lemma_shared_count(l1, right);
            assert forall|x: Seq<char>| right.contains(x) implies x != left[0] by {
                if r1.contains(x) {
                    lemma_text_transitive(left[0], right[0], x);
                }
            }
            assert(both =~= l1.to_set().intersect(right.to_set()));
        } else {
            lemma_shared_count(left, r1);
            assert forall|x: Seq<char>| left.contains(x) implies x != right[0] by {
                if l1.contains(x) {
                    lemma_text_transitive(right[0], left[0], x);
                }
            }
            assert(both =~= left.to_set().intersect(r1.to_set()));
        }
    }
}

proof fn lemma_first_or_rest(s: Seq<Seq<char>>, x: Seq<char>)
    requires
        s.len() > 0,
    ensures
        s.contains(x) <==> x == s[0] || s.drop_first().contains(x),
{
    if s.contains(x) {
        let i = choose|i: int| 0 <= i < s.len() && s[i] == x;
        if i > 0 {
            assert(s.drop_first()[i - 1] == x);
        }
    }
    if s.drop_first().contains(x) {
        let i = choose|i: int| 0 <= i < s.drop_first().len() && s.drop_first()[i] == x;
        assert(s[i + 1] == x);
    }
    if x == s[0] {
        assert(s.contains(s[0]));
    }
}

/// Counts the keys that two ascending lists share.
pub fn overlap_count(left: &[String], right: &[String]) -> (count: usize)
    ensures
        count == shared_count(texts(left@), texts(right@)),
{
    let mut left_index: usize = 0;
    let mut right_index: usize = 0;
    let mut count: usize = 0;
    let ghost l = texts(left@);
    let ghost r = texts(right@);
    assert(l.skip(0) =~= l);
    assert(r.skip(0) =~= r);
    while left_index < left.len() && right_index < right.len()
        invariant
            l == texts(left@),
            r == texts(right@),
            left_index <= left.len(),
            right_index <= right.len(),
            count <= left_index,
            count + shared_count(l.skip(left_index as int), r.skip(right_index as int))
                == shared_count(l, r),
        decreases left.len() - left_index + right.len() - right_index,
    {
        let a = left[left_index].as_str();
        let b = right[right_index].as_str();
        proof {
            let ls = l.skip(left_index as int);
            let rs = r.skip(right_index as int);
            assert(ls[0] == a@);
            assert(rs[0] == b@);
            assert(ls.drop_first() =~= l.skip(left_index + 1));
            assert(rs.drop_first() =~= r.skip(right_index + 1));
            lemma_text_order(a@, b@);
        }
        if str_eq(a, b) {
            count = count + 1;
            left_index = left_index + 1;
            right_index = right_index + 1;
        } else if str_lt(a, b) {
            left_index = left_index + 1;
        } else {
            right_index = right_index + 1;
        }
    }
    count
}

} // verus!
