//! Sets of node ids, held in an `ahash::AHashSet`.

use vstd::prelude::*;
use ahash::AHashSet;

verus! {

#[verifier::external_type_specification]
#[verifier::external_body]
#[verifier::reject_recursive_types(T)]
#[verifier::reject_recursive_types(S)]
pub struct ExAHashSet<T, S>(AHashSet<T, S>);

/// The ids a set holds.
pub uninterp spec fn id_set(s: AHashSet<String>) -> Set<Seq<char>>;

/// Calls `AHashSet::new`.
/// Trusted: the new set is empty.
#[verifier::external_body]
pub(crate) fn ids_new() -> (fresh: AHashSet<String>)
    ensures
        id_set(fresh) == Set::<Seq<char>>::empty(),
{
    AHashSet::new()
}

/// Calls `contains` on the set (through its `HashSet`).
/// Trusted: true exactly when the set holds `k` (`String` items compare and
/// hash by their characters).
#[verifier::external_body]
pub(crate) fn ids_contains(s: &AHashSet<String>, k: &str) -> (b: bool)
    ensures
        b == id_set(*s).contains(k@),
{
    s.contains(k)
}

/// Calls `insert` on the set (through its `HashSet`).
/// Trusted: afterwards the set holds `k` besides what it held before.
#[verifier::external_body]
pub(crate) fn ids_insert(s: &mut AHashSet<String>, k: String)
    ensures
        id_set(*final(s)) == id_set(*old(s)).insert(k@),
{
    s.insert(k);
}

} // verus!
