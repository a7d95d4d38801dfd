//! The hash-based and insertion-ordered collections that the dependency graph
//! keeps its state in, declared to Verus together with the operations that the
//! graph algorithms call on them.
//!
//! Every collection here is keyed by integers (node ids) or pairs of them, so
//! the hashing and equality that the collections rely on are those of the
//! standard library's integer types.
use vstd::prelude::*;
use bevy_platform::collections::{HashMap, HashSet};
use bevy_platform::hash::FixedHasher;
use indexmap::IndexMap;

use crate::graph::NodeIdAndDir;
use crate::service::ServiceDepInfo;

verus! {

#[verifier::external_type_specification]
#[verifier::external_body]
pub struct ExFixedHasher(FixedHasher);

#[verifier::external_type_specification]
#[verifier::external_body]
#[verifier::reject_recursive_types(K)]
#[verifier::reject_recursive_types(V)]
#[verifier::reject_recursive_types(S)]
pub struct ExIndexMap<K, V, S>(IndexMap<K, V, S>);

#[verifier::external_type_specification]
#[verifier::external_body]
#[verifier::reject_recursive_types(T)]
#[verifier::reject_recursive_types(S)]
pub struct ExHashSet<T, S>(HashSet<T, S>);

#[verifier::external_type_specification]
#[verifier::external_body]
#[verifier::reject_recursive_types(K)]
#[verifier::reject_recursive_types(V)]
#[verifier::reject_recursive_types(S)]
pub struct ExHashMap<K, V, S>(HashMap<K, V, S>);

/// The entries of an adjacency map, in the map's order: each node id with the
/// links recorded for it.
pub uninterp spec fn adjacency_entries(m: IndexMap<u64, Vec<NodeIdAndDir>, FixedHasher>) -> Seq<
    (u64, Seq<NodeIdAndDir>),
>;

/// The pairs held by a set of node-id pairs.
pub uninterp spec fn pair_set_contents(s: HashSet<(u64, u64), FixedHasher>) -> Set<(u64, u64)>;

/// The contents of a map from node ids to dependency descriptions.
pub uninterp spec fn dep_info_map_contents(m: HashMap<u64, ServiceDepInfo, FixedHasher>) -> Map<
    u64,
    ServiceDepInfo,
>;

/// The keys of a sequence of adjacency entries, in order.
pub open spec fn entry_keys(entries: Seq<(u64, Seq<NodeIdAndDir>)>) -> Seq<u64> {
    entries.map_values(|e: (u64, Seq<NodeIdAndDir>)| e.0)
}

/// `IndexMap::default`: an empty map.
#[verifier::external_body]
pub(crate) fn adjacency_new() -> (m: IndexMap<u64, Vec<NodeIdAndDir>, FixedHasher>)
    ensures
        adjacency_entries(m) == Seq::<(u64, Seq<NodeIdAndDir>)>::empty(),
{
    IndexMap::default()
}

/// `IndexMap::len`: the number of entries.
#[verifier::external_body]
pub(crate) fn adjacency_len(m: &IndexMap<u64, Vec<NodeIdAndDir>, FixedHasher>) -> (n: usize)
    ensures
        n == adjacency_entries(*m).len(),
{
    m.len()
}

/// `IndexMap::contains_key`: whether some entry has the key.
#[verifier::external_body]
pub(crate) fn adjacency_contains_key(m: &IndexMap<u64, Vec<NodeIdAndDir>, FixedHasher>, k: u64) -> (b:
    bool)
    ensures
        b == entry_keys(adjacency_entries(*m)).contains(k),
{
    m.contains_key(&k)
}

/// `IndexMap::get_index_of`: the position of the entry with the key.
#[verifier::external_body]
pub(crate) fn adjacency_index_of(m: &IndexMap<u64, Vec<NodeIdAndDir>, FixedHasher>, k: u64) -> (r:
    Option<usize>)
    ensures
        r matches Some(i) ==> i < adjacency_entries(*m).len() && adjacency_entries(*m)[i as int].0
            == k,
        r is None ==> !entry_keys(adjacency_entries(*m)).contains(k),
{
    m.get_index_of(&k)
}

/// `IndexMap::get`: the value stored under the key.
#[verifier::external_body]
pub(crate) fn adjacency_get(m: &IndexMap<u64, Vec<NodeIdAndDir>, FixedHasher>, k: u64) -> (r: Option<
    &Vec<NodeIdAndDir>,
>)
    ensures
        r is Some <==> entry_keys(adjacency_entries(*m)).contains(k),
        forall|i: int|
            0 <= i < adjacency_entries(*m).len() && (#[trigger] adjacency_entries(*m)[i]).0 == k
                ==> r.unwrap()@ == adjacency_entries(*m)[i].1,
{
    m.get(&k)
}

/// `IndexMap::get_index`: the entry at a position.
#[verifier::external_body]
pub(crate) fn adjacency_get_index(m: &IndexMap<u64, Vec<NodeIdAndDir>, FixedHasher>, i: usize) -> (r:
    Option<(&u64, &Vec<NodeIdAndDir>)>)
    ensures
        r matches Some(p) ==> i < adjacency_entries(*m).len() && *p.0 == adjacency_entries(*m)[i as int].0
            && p.1@ == adjacency_entries(*m)[i as int].1,
        r is None <==> i >= adjacency_entries(*m).len(),
{
    m.get_index(i)
}

/// `IndexMap::insert`: an entry whose key is present keeps its position and
/// takes the new value, and the old value is returned; otherwise the entry is
/// appended at the end.
#[verifier::external_body]
pub(crate) fn adjacency_insert(
    m: &mut IndexMap<u64, Vec<NodeIdAndDir>, FixedHasher>,
    k: u64,
    v: Vec<NodeIdAndDir>,
) -> (r: Option<Vec<NodeIdAndDir>>)
    ensures
        r is Some <==> entry_keys(adjacency_entries(*old(m))).contains(k),
        forall|i: int|
            0 <= i < adjacency_entries(*old(m)).len() && (#[trigger] adjacency_entries(*old(m))[i]).0 == k
                ==> (r matches Some(ov) && ov@ == adjacency_entries(*old(m))[i].1)
                && adjacency_entries(*final(m)) == adjacency_entries(*old(m)).update(i, (k, v@)),
        !entry_keys(adjacency_entries(*old(m))).contains(k) ==> r is None && adjacency_entries(
            *final(m),
        ) == adjacency_entries(*old(m)).push((k, v@)),
{
    m.insert(k, v)
}

/// `IndexMap::swap_remove`: the entry with the key is removed by moving the last
/// entry into its position, and its value is returned.
#[verifier::external_body]
pub(crate) fn adjacency_swap_remove(m: &mut IndexMap<u64, Vec<NodeIdAndDir>, FixedHasher>, k: u64) -> (r:
    Option<Vec<NodeIdAndDir>>)
    ensures
        r is Some <==> entry_keys(adjacency_entries(*old(m))).contains(k),
        forall|i: int|
            0 <= i < adjacency_entries(*old(m)).len() && (#[trigger] adjacency_entries(*old(m))[i]).0 == k
                ==> (r matches Some(ov) && ov@ == adjacency_entries(*old(m))[i].1)
                && adjacency_entries(*final(m)) == adjacency_entries(*old(m)).update(
                i,
                adjacency_entries(*old(m)).last(),
            ).drop_last(),
        !entry_keys(adjacency_entries(*old(m))).contains(k) ==> r is None && adjacency_entries(
            *final(m),
        ) == adjacency_entries(*old(m)),
{
    m.swap_remove(&k)
}

/// `HashSet::default`: an empty set of pairs.
#[verifier::external_body]
pub(crate) fn pair_set_new() -> (s: HashSet<(u64, u64), FixedHasher>)
    ensures
        pair_set_contents(s) == Set::<(u64, u64)>::empty(),
{
    HashSet::default()
}

/// `HashSet::insert`: adds the pair, and tells whether it was absent.
#[verifier::external_body]
pub(crate) fn pair_set_insert(s: &mut HashSet<(u64, u64), FixedHasher>, p: (u64, u64)) -> (b: bool)
    ensures
        b == !pair_set_contents(*old(s)).contains(p),
        pair_set_contents(*final(s)) == pair_set_contents(*old(s)).insert(p),
{
    s.insert(p)
}

/// `HashSet::remove`: removes the pair, and tells whether it was present.
#[verifier::external_body]
pub(crate) fn pair_set_remove(s: &mut HashSet<(u64, u64), FixedHasher>, p: (u64, u64)) -> (b: bool)
    ensures
        b == pair_set_contents(*old(s)).contains(p),
        pair_set_contents(*final(s)) == pair_set_contents(*old(s)).remove(p),
{
    s.remove(&p)
}

/// `HashSet::contains`.
#[verifier::external_body]
pub(crate) fn pair_set_contains(s: &HashSet<(u64, u64), FixedHasher>, p: (u64, u64)) -> (b: bool)
    ensures
        b == pair_set_contents(*s).contains(p),
{
    s.contains(&p)
}

/// `HashSet::iter`, collected: every pair exactly once, in the set's iteration
/// order. That order follows the hashes and is not stated.
#[verifier::external_body]
pub(crate) fn pair_set_to_vec(s: &HashSet<(u64, u64), FixedHasher>) -> (v: Vec<(u64, u64)>)
    ensures
        v@.to_set() == pair_set_contents(*s),
        v@.no_duplicates(),
{
    s.iter().copied().collect()
}

/// `HashMap::default`: an empty map.
#[verifier::external_body]
pub(crate) fn dep_info_map_new() -> (m: HashMap<u64, ServiceDepInfo, FixedHasher>)
    ensures
        dep_info_map_contents(m).is_empty(),
{
    HashMap::default()
}

/// `HashMap::insert`: the key maps to the new value afterwards.
#[verifier::external_body]
pub(crate) fn dep_info_map_insert(
    m: &mut HashMap<u64, ServiceDepInfo, FixedHasher>,
    k: u64,
    v: ServiceDepInfo,
) -> (r: Option<ServiceDepInfo>)
    ensures
        dep_info_map_contents(*final(m)) == dep_info_map_contents(*old(m)).insert(k, v),
        r is Some <==> dep_info_map_contents(*old(m)).contains_key(k),
        r matches Some(ov) ==> ov == dep_info_map_contents(*old(m))[k],
{
    m.insert(k, v)
}

/// `HashMap::get`: the value stored under the key.
#[verifier::external_body]
pub(crate) fn dep_info_map_get(m: &HashMap<u64, ServiceDepInfo, FixedHasher>, k: u64) -> (r: Option<
    &ServiceDepInfo,
>)
    ensures
        r is Some <==> dep_info_map_contents(*m).contains_key(k),
        r matches Some(v) ==> *v == dep_info_map_contents(*m)[k],
{
    m.get(&k)
}

} // verus!
