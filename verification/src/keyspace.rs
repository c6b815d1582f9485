//! The concurrent maps, keyed by byte strings, that hold each kind of value
//! of a database. Each map is the outside `DashMap`; the functions below are
//! the calls the library makes on it.
use vstd::prelude::*;
use std::collections::VecDeque;
use dashmap::DashMap;
use crate::collections::{ByteMap, ValueSet};
use crate::data_structures::sorted_set::{SortedSet, SortedSetView};
use crate::types::{bytes_views, Index, Key, State, StateView, Value};

verus! {

#[verifier::external_type_specification]
#[verifier::external_body]
#[verifier::reject_recursive_types(K)]
#[verifier::reject_recursive_types(V)]
#[verifier::reject_recursive_types(S)]
pub struct ExDashMap<K, V, S>(DashMap<K, V, S>);

/// Key to string storage.
pub type KeyString = DashMap<Key, Value>;
/// Key to set storage.
pub type KeySet = DashMap<Key, ValueSet>;
/// Key to list storage.
pub type KeyList = DashMap<Key, VecDeque<Value>>;
/// Key to hash storage.
pub type KeyHash = DashMap<Key, ByteMap<Value>>;
/// Key to sorted set storage.
pub type KeyZSet = DashMap<Key, SortedSet>;
/// Index to database storage.
pub type KeyStates = DashMap<Index, State>;

/// The fields of a hash value, with values as byte sequences.
pub open spec fn field_map_view(m: ByteMap<Value>) -> Map<Seq<u8>, Seq<u8>> {
    m@.map_values(|v: Value| v@)
}

/// The strings of a list value, in order.
pub open spec fn list_view(l: VecDeque<Value>) -> Seq<Seq<u8>> {
    bytes_views(l@)
}

/// The keys of a sequence of byte strings, without repeats, form `dom`.
pub open spec fn lists_keys_of(r: Seq<Vec<u8>>, dom: Set<Seq<u8>>) -> bool {
    &&& bytes_views(r).no_duplicates()
    &&& bytes_views(r).to_set() == dom
}

// ---- strings ----

/// What the string map holds.
pub uninterp spec fn kv_contents(m: KeyString) -> Map<Seq<u8>, Seq<u8>>;

/// `DashMap::new`: the map is empty.
#[verifier::external_body]
pub(crate) fn kv_new() -> (r: KeyString)
    ensures
        kv_contents(r).dom() == Set::<Seq<u8>>::empty(),
{
    DashMap::new()
}

/// `DashMap::insert`: the key now maps to the value.
#[verifier::external_body]
pub(crate) fn kv_insert(m: &mut KeyString, key: Key, value: Value)
    ensures
        kv_contents(*final(m)) == kv_contents(*old(m)).insert(key@, value@),
{
    m.insert(key, value);
}

/// `DashMap::remove`: the key no longer maps to anything; hands back the
/// value it mapped to.
#[verifier::external_body]
pub(crate) fn kv_remove(m: &mut KeyString, key: &[u8]) -> (r: Option<Value>)
    ensures
        kv_contents(*final(m)) == kv_contents(*old(m)).remove(key@),
        match r {
            Some(v) => kv_contents(*old(m)).contains_key(key@) && v@ == kv_contents(*old(m))[key@],
            None => !kv_contents(*old(m)).contains_key(key@),
        },
{
    m.remove(key).map(|(_, v)| v)
}

/// `DashMap::get`: a copy of the value the key maps to.
#[verifier::external_body]
pub(crate) fn kv_get(m: &KeyString, key: &[u8]) -> (r: Option<Value>)
    ensures
        match r {
            Some(v) => kv_contents(*m).contains_key(key@) && v@ == kv_contents(*m)[key@],
            None => !kv_contents(*m).contains_key(key@),
        },
{
    m.get(key).map(|v| v.value().clone())
}

/// `DashMap::contains_key`: whether the key maps to something.
#[verifier::external_body]
pub(crate) fn kv_contains_key(m: &KeyString, key: &[u8]) -> (r: bool)
    ensures
        r == kv_contents(*m).contains_key(key@),
{
    m.contains_key(key)
}

/// `DashMap::iter`: the keys, each once, in the map's own order.
#[verifier::external_body]
pub(crate) fn kv_keys(m: &KeyString) -> (r: Vec<Key>)
    ensures
        lists_keys_of(r@, kv_contents(*m).dom()),
{
    m.iter().map(|e| e.key().clone()).collect()
}

// ---- sets ----

/// What the set map holds, each set by its members.
pub uninterp spec fn sets_contents(m: KeySet) -> Map<Seq<u8>, Set<Seq<u8>>>;

/// `DashMap::new`: the map is empty.
#[verifier::external_body]
pub(crate) fn sets_new() -> (r: KeySet)
    ensures
        sets_contents(r).dom() == Set::<Seq<u8>>::empty(),
{
    DashMap::new()
}

/// `DashMap::insert`: the key now maps to the set.
#[verifier::external_body]
pub(crate) fn sets_insert(m: &mut KeySet, key: Key, value: ValueSet)
    ensures
        sets_contents(*final(m)) == sets_contents(*old(m)).insert(key@, value@),
{
    m.insert(key, value);
}

/// `DashMap::remove`: the key no longer maps to anything; hands back the
/// set it mapped to.
#[verifier::external_body]
pub(crate) fn sets_remove(m: &mut KeySet, key: &[u8]) -> (r: Option<ValueSet>)
    ensures
        sets_contents(*final(m)) == sets_contents(*old(m)).remove(key@),
        match r {
            Some(v) => sets_contents(*old(m)).contains_key(key@) && v@ == sets_contents(*old(m))[key@],
            None => !sets_contents(*old(m)).contains_key(key@),
        },
{
    m.remove(key).map(|(_, v)| v)
}

/// `DashMap::contains_key`: whether the key maps to something.
#[verifier::external_body]
pub(crate) fn sets_contains_key(m: &KeySet, key: &[u8]) -> (r: bool)
    ensures
        r == sets_contents(*m).contains_key(key@),
{
    m.contains_key(key)
}

/// `DashMap::iter`: the keys, each once, in the map's own order.
#[verifier::external_body]
pub(crate) fn sets_keys(m: &KeySet) -> (r: Vec<Key>)
    ensures
        lists_keys_of(r@, sets_contents(*m).dom()),
{
    m.iter().map(|e| e.key().clone()).collect()
}

// ---- lists ----

/// What the list map holds, each list by its strings in order.
pub uninterp spec fn lists_contents(m: KeyList) -> Map<Seq<u8>, Seq<Seq<u8>>>;

/// `DashMap::new`: the map is empty.
#[verifier::external_body]
pub(crate) fn lists_new() -> (r: KeyList)
    ensures
        lists_contents(r).dom() == Set::<Seq<u8>>::empty(),
{
    DashMap::new()
}

/// `DashMap::insert`: the key now maps to the list.
#[verifier::external_body]
pub(crate) fn lists_insert(m: &mut KeyList, key: Key, value: VecDeque<Value>)
    ensures
        lists_contents(*final(m)) == lists_contents(*old(m)).insert(key@, list_view(value)),
{
    m.insert(key, value);
}

/// `DashMap::remove`: the key no longer maps to anything; hands back the
/// list it mapped to.
#[verifier::external_body]
pub(crate) fn lists_remove(m: &mut KeyList, key: &[u8]) -> (r: Option<VecDeque<Value>>)
    ensures
        lists_contents(*final(m)) == lists_contents(*old(m)).remove(key@),
        match r {
            Some(v) => lists_contents(*old(m)).contains_key(key@) && list_view(v) == lists_contents(
                *old(m),
            )[key@],
            None => !lists_contents(*old(m)).contains_key(key@),
        },
{
    m.remove(key).map(|(_, v)| v)
}

/// `DashMap::contains_key`: whether the key maps to something.
#[verifier::external_body]
pub(crate) fn lists_contains_key(m: &KeyList, key: &[u8]) -> (r: bool)
    ensures
        r == lists_contents(*m).contains_key(key@),
{
    m.contains_key(key)
}

/// `DashMap::iter`: the keys, each once, in the map's own order.
#[verifier::external_body]
pub(crate) fn lists_keys(m: &KeyList) -> (r: Vec<Key>)
    ensures
        lists_keys_of(r@, lists_contents(*m).dom()),
{
    m.iter().map(|e| e.key().clone()).collect()
}

// ---- hashes ----

/// What the hash map holds, each hash by its fields.
pub uninterp spec fn hashes_contents(m: KeyHash) -> Map<Seq<u8>, Map<Seq<u8>, Seq<u8>>>;

/// `DashMap::new`: the map is empty.
#[verifier::external_body]
pub(crate) fn hashes_new() -> (r: KeyHash)
    ensures
        hashes_contents(r).dom() == Set::<Seq<u8>>::empty(),
{
    DashMap::new()
}

/// `DashMap::insert`: the key now maps to the hash.
#[verifier::external_body]
pub(crate) fn hashes_insert(m: &mut KeyHash, key: Key, value: ByteMap<Value>)
    ensures
        hashes_contents(*final(m)) == hashes_contents(*old(m)).insert(key@, field_map_view(value)),
{
    m.insert(key, value);
}

/// `DashMap::remove`: the key no longer maps to anything; hands back the
/// hash it mapped to.
#[verifier::external_body]
pub(crate) fn hashes_remove(m: &mut KeyHash, key: &[u8]) -> (r: Option<ByteMap<Value>>)
    ensures
        hashes_contents(*final(m)) == hashes_contents(*old(m)).remove(key@),
        match r {
            Some(v) => hashes_contents(*old(m)).contains_key(key@) && field_map_view(v)
                == hashes_contents(*old(m))[key@],
            None => !hashes_contents(*old(m)).contains_key(key@),
        },
{
    m.remove(key).map(|(_, v)| v)
}

/// `DashMap::contains_key`: whether the key maps to something.
#[verifier::external_body]
pub(crate) fn hashes_contains_key(m: &KeyHash, key: &[u8]) -> (r: bool)
    ensures
        r == hashes_contents(*m).contains_key(key@),
{
    m.contains_key(key)
}

/// `DashMap::iter`: the keys, each once, in the map's own order.
#[verifier::external_body]
pub(crate) fn hashes_keys(m: &KeyHash) -> (r: Vec<Key>)
    ensures
        lists_keys_of(r@, hashes_contents(*m).dom()),
{
    m.iter().map(|e| e.key().clone()).collect()
}

// ---- sorted sets ----

/// What the sorted set map holds.
pub uninterp spec fn zsets_contents(m: KeyZSet) -> Map<Seq<u8>, SortedSetView>;

/// `DashMap::new`: the map is empty.
#[verifier::external_body]
pub(crate) fn zsets_new() -> (r: KeyZSet)
    ensures
        zsets_contents(r).dom() == Set::<Seq<u8>>::empty(),
{
    DashMap::new()
}

/// `DashMap::insert`: the key now maps to the sorted set.
#[verifier::external_body]
pub(crate) fn zsets_insert(m: &mut KeyZSet, key: Key, value: SortedSet)
    ensures
        zsets_contents(*final(m)) == zsets_contents(*old(m)).insert(key@, value@),
{
    m.insert(key, value);
}

/// `DashMap::remove`: the key no longer maps to anything; hands back the
/// sorted set it mapped to.
#[verifier::external_body]
pub(crate) fn zsets_remove(m: &mut KeyZSet, key: &[u8]) -> (r: Option<SortedSet>)
    ensures
        zsets_contents(*final(m)) == zsets_contents(*old(m)).remove(key@),
        match r {
            Some(v) => zsets_contents(*old(m)).contains_key(key@) && v@ == zsets_contents(*old(m))[key@],
            None => !zsets_contents(*old(m)).contains_key(key@),
        },
{
    m.remove(key).map(|(_, v)| v)
}

/// `DashMap::contains_key`: whether the key maps to something.
#[verifier::external_body]
pub(crate) fn zsets_contains_key(m: &KeyZSet, key: &[u8]) -> (r: bool)
    ensures
        r == zsets_contents(*m).contains_key(key@),
{
    m.contains_key(key)
}

/// `DashMap::iter`: the keys, each once, in the map's own order.
#[verifier::external_body]
pub(crate) fn zsets_keys(m: &KeyZSet) -> (r: Vec<Key>)
    ensures
        lists_keys_of(r@, zsets_contents(*m).dom()),
{
    m.iter().map(|e| e.key().clone()).collect()
}

// ---- databases ----

/// What the database map holds, each database by its value.
pub uninterp spec fn states_contents(m: KeyStates) -> Map<i64, StateView>;

/// `DashMap::new`: the map is empty.
#[verifier::external_body]
pub(crate) fn states_new() -> (r: KeyStates)
    ensures
        states_contents(r).dom() == Set::<i64>::empty(),
{
    DashMap::new()
}

/// `DashMap::insert`: the index now maps to the database.
#[verifier::external_body]
pub(crate) fn states_insert(m: &mut KeyStates, index: Index, value: State)
    ensures
        states_contents(*final(m)) == states_contents(*old(m)).insert(index, value@),
{
    m.insert(index, value);
}

/// `DashMap::remove`: the index no longer maps to anything; hands back the
/// database it mapped to.
#[verifier::external_body]
pub(crate) fn states_remove(m: &mut KeyStates, index: Index) -> (r: Option<State>)
    ensures
        states_contents(*final(m)) == states_contents(*old(m)).remove(index),
        match r {
            Some(v) => states_contents(*old(m)).contains_key(index) && v@ == states_contents(*old(m))[index],
            None => !states_contents(*old(m)).contains_key(index),
        },
{
    m.remove(&index).map(|(_, v)| v)
}

/// `DashMap::iter`: the indices, each once, in the map's own order.
#[verifier::external_body]
pub(crate) fn states_keys(m: &KeyStates) -> (r: Vec<Index>)
    ensures
        r@.no_duplicates(),
        r@.to_set() == states_contents(*m).dom(),
{
    m.iter().map(|e| *e.key()).collect()
}

} // verus!
