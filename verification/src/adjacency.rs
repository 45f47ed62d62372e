//! Adjacency lists of one graph layer, held in an `ahash::AHashMap`.

use vstd::prelude::*;
use ahash::AHashMap;

verus! {

#[verifier::external_type_specification]
#[verifier::external_body]
#[verifier::reject_recursive_types(K)]
#[verifier::reject_recursive_types(V)]
#[verifier::reject_recursive_types(S)]
pub struct ExAHashMap<K, V, S>(AHashMap<K, V, S>);

#[verifier::external_type_specification]
#[verifier::external_body]
pub struct ExRandomState(ahash::RandomState);

/// The ids of a list of strings.
pub open spec fn ids_of(v: Seq<String>) -> Seq<Seq<char>> {
    v.map_values(|s: String| s@)
}

/// The adjacency of a map without entries.
pub open spec fn no_entries() -> Map<Seq<char>, Seq<Seq<char>>> {
    Map::empty()
}

/// What an adjacency map holds: each node id mapped to its neighbour ids.
pub uninterp spec fn adjacency(m: AHashMap<String, Vec<String>>) -> Map<Seq<char>, Seq<Seq<char>>>;

/// Calls `AHashMap::new`.
/// Trusted: the new map is empty.
#[verifier::external_body]
pub(crate) fn adj_new() -> (fresh: AHashMap<String, Vec<String>>)
    ensures
        adjacency(fresh) == no_entries(),
{
    AHashMap::new()
}

/// Calls `contains_key` on the map.
/// Trusted: true exactly when the map has an entry for `k` (`String` keys
/// compare and hash by their characters).
#[verifier::external_body]
pub(crate) fn adj_contains(m: &AHashMap<String, Vec<String>>, k: &str) -> (b: bool)
    ensures
        b == adjacency(*m).dom().contains(k@),
{
    m.contains_key(k)
}

/// Calls `AHashMap::get`.
/// Trusted: the entry for `k`, if there is one.
#[verifier::external_body]
pub(crate) fn adj_get<'a>(m: &'a AHashMap<String, Vec<String>>, k: &str) -> (r: Option<&'a Vec<String>>)
    ensures
        r is Some <==> adjacency(*m).dom().contains(k@),
        r matches Some(v) ==> ids_of(v@) == adjacency(*m)[k@],
{
    m.get(k)
}

/// Calls `AHashMap::insert`, dropping the entry it replaces.
/// Trusted: afterwards `k` maps to `v` and every other entry is unchanged.
#[verifier::external_body]
pub(crate) fn adj_insert(m: &mut AHashMap<String, Vec<String>>, k: String, v: Vec<String>)
    ensures
        adjacency(*final(m)) == adjacency(*old(m)).insert(k@, ids_of(v@)),
{
    m.insert(k, v);
}

/// Calls `AHashMap::remove`.
/// Trusted: the entry for `k` is taken out and returned; others are unchanged.
#[verifier::external_body]
pub(crate) fn adj_remove(m: &mut AHashMap<String, Vec<String>>, k: &str) -> (r: Option<Vec<String>>)
    ensures
        adjacency(*final(m)) == adjacency(*old(m)).remove(k@),
        r is Some <==> adjacency(*old(m)).dom().contains(k@),
        r matches Some(v) ==> ids_of(v@) == adjacency(*old(m))[k@],
{
    m.remove(k)
}

/// Calls `keys()` on the map and clones each key.
/// Trusted: each key of the map occurs exactly once; the order is the map's
/// iteration order, which this contract leaves open.
#[verifier::external_body]
pub(crate) fn adj_keys(m: &AHashMap<String, Vec<String>>) -> (ks: Vec<String>)
    ensures
        ids_of(ks@).no_duplicates(),
        ids_of(ks@).to_set() == adjacency(*m).dom(),
{
    m.keys().cloned().collect()
}

/// Calls `len()` on the map.
/// Trusted: the number of entries, so the key set is finite.
#[verifier::external_body]
pub(crate) fn adj_len(m: &AHashMap<String, Vec<String>>) -> (count: usize)
    ensures
        count == adjacency(*m).dom().len(),
{
    m.len()
}

} // verus!
