//! The parent link map: maps each element index to its current parent index.
//!
//! The map is kept in a `dashmap::DashMap`, the concurrency-safe associative
//! container the engine stores its parent links in. Verified code reaches it
//! only through the small trusted functions below, whose contracts speak of
//! `link_map`, the mathematical map the container holds.

use vstd::prelude::*;
use dashmap::DashMap;

verus! {

#[verifier::external_type_specification]
#[verifier::external_body]
#[verifier::reject_recursive_types(K)]
#[verifier::reject_recursive_types(V)]
#[verifier::reject_recursive_types(S)]
pub struct ExDashMap<K, V, S>(DashMap<K, V, S>);

/// The concrete container the engine keeps its parent links in.
pub type ParentMap = DashMap<usize, usize>;

/// What the parent link map holds: the entries of the `DashMap`, as a
/// mathematical map from element index to parent index.
pub uninterp spec fn link_map(m: ParentMap) -> Map<usize, usize>;

/// The contents of a parent link map with no entries.
pub open spec fn no_links() -> Map<usize, usize> {
    Map::empty()
}

/// Relies on `dashmap::DashMap::new`: a freshly created map holds no entries.
#[verifier::external_body]
pub(crate) fn link_map_new() -> (created: ParentMap)
    ensures
        link_map(created) == no_links(),
{
    DashMap::new()
}

/// Relies on `dashmap::DashMap::get`: returns the value the key maps to,
/// `None` when the key is absent. The key is required to be present here,
/// so the lookup cannot come back empty.
#[verifier::external_body]
pub(crate) fn link_map_get(m: &ParentMap, key: usize) -> (value: usize)
    requires
        link_map(*m).dom().contains(key),
    ensures
        value == link_map(*m)[key],
{
    *m.get(&key).unwrap()
}

/// Relies on `dashmap::DashMap::insert`: maps the key to the value and
/// leaves every other entry unchanged.
#[verifier::external_body]
pub(crate) fn link_map_set(m: &mut ParentMap, key: usize, value: usize)
    ensures
        link_map(*final(m)) == link_map(*old(m)).insert(key, value),
{
    let _ = m.insert(key, value);
}

/// Relies on `dashmap::DashMap::clone` (`K = V = usize`): the copy holds
/// exactly the entries of the original.
#[verifier::external_body]
pub(crate) fn link_map_clone(m: &ParentMap) -> (copy: ParentMap)
    ensures
        link_map(copy) == link_map(*m),
{
    m.clone()
}

} // verus!
