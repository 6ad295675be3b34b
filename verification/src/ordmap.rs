//! Trusted interface to `indexmap`'s ordered map.
//!
//! The library keeps its insertion-ordered entry lists in plain vectors; the
//! index map only answers "under which position was this key inserted". Its
//! contents are named by [`im_map`], and the wrappers state what the crate's
//! documentation promises of `new`, `get` and `insert`.

use vstd::prelude::*;
use indexmap::IndexMap;

verus! {

#[verifier::external_type_specification]
#[verifier::external_body]
#[verifier::reject_recursive_types(K)]
#[verifier::reject_recursive_types(V)]
#[verifier::reject_recursive_types(S)]
pub struct ExIndexMap<K, V, S>(IndexMap<K, V, S>);

/// The key-to-value mapping an index map holds.
pub uninterp spec fn im_map(m: IndexMap<String, usize>) -> Map<Seq<char>, usize>;

/// The mapping of a map with nothing in it.
pub open spec fn im_empty() -> Map<Seq<char>, usize> {
    Map::empty()
}

/// Relies on indexmap::IndexMap::new: creates an empty map.
#[verifier::external_body]
pub(crate) fn im_new() -> (m: IndexMap<String, usize>)
    ensures
        im_map(m) == im_empty(),
{
    IndexMap::new()
}

/// Relies on indexmap::IndexMap::get: returns the value stored under an
/// equivalent key, if one is present.
#[verifier::external_body]
pub(crate) fn im_get(m: &IndexMap<String, usize>, k: &String) -> (r: Option<usize>)
    ensures
        r == if im_map(*m).contains_key(k@) {
            Some(im_map(*m)[k@])
        } else {
            None::<usize>
        },
{
    m.get(k).copied()
}

/// Relies on indexmap::IndexMap::insert: stores the value under the key,
/// replacing the value of an already-present key.
#[verifier::external_body]
pub(crate) fn im_insert(m: &mut IndexMap<String, usize>, k: String, v: usize)
    ensures
        im_map(*final(m)) == im_map(*old(m)).insert(k@, v),
{
    m.insert(k, v);
}

} // verus!
