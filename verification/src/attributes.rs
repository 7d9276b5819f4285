//! The ordered attribute map and what is taken on trust about it.

use crate::model::{with_attribute, Attribute};
use indexmap::IndexMap;
use vstd::prelude::*;

verus! {

/// `indexmap::IndexMap`, carried as an opaque value.
#[verifier::external_type_specification]
#[verifier::external_body]
#[verifier::reject_recursive_types(K)]
#[verifier::reject_recursive_types(V)]
#[verifier::reject_recursive_types(S)]
pub struct ExIndexMap<K, V, S>(IndexMap<K, V, S>);

/// The key-value pairs that a map holds, in the map's own order, each string
/// as its sequence of characters.
pub uninterp spec fn entries(m: &IndexMap<String, String>) -> Seq<Attribute>;

/// `IndexMap::new`: a map that holds nothing.
#[verifier::external_body]
pub(crate) fn empty_map() -> (m: IndexMap<String, String>)
    ensures
        entries(&m) == Seq::<Attribute>::empty(),
{
    IndexMap::new()
}

/// `IndexMap::insert`: where the map holds the key, the pair stays in its
/// place and takes the new value; where it does not, the pair goes to the end.
/// Nothing else in the map changes.
#[verifier::external_body]
pub(crate) fn insert_entry(m: &mut IndexMap<String, String>, key: String, value: String)
    ensures
        entries(final(m)) == with_attribute(entries(old(m)), key@, value@),
{
    m.insert(key, value);
}

/// `IndexMap::iter`, collected: the pairs of the map in its order.
#[verifier::external_body]
pub(crate) fn entry_list(m: &IndexMap<String, String>) -> (list: Vec<(&String, &String)>)
    ensures
        list@.len() == entries(m).len(),
        forall|i: int|
            0 <= i < list@.len() ==> (#[trigger] list@[i]).0@ == entries(m)[i].0 && list@[i].1@
                == entries(m)[i].1,
{
    m.iter().collect()
}

/// `IndexMap::clone`: a map that holds the same pairs in the same order.
#[verifier::external_body]
pub(crate) fn clone_map(m: &IndexMap<String, String>) -> (copy: IndexMap<String, String>)
    ensures
        entries(&copy) == entries(m),
{
    m.clone()
}

} // verus!
