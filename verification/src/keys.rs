//! An index from keys to their positions, kept in an `indexmap::IndexMap`.
use indexmap::IndexMap;
use vstd::prelude::*;

verus! {

/// The `indexmap::IndexMap` type, opaque to Verus; its keys are named by
/// `index_keys`.
#[verifier::external_type_specification]
#[verifier::external_body]
#[verifier::reject_recursive_types(K)]
#[verifier::reject_recursive_types(V)]
#[verifier::reject_recursive_types(S)]
pub struct ExIndexMap<K, V, S>(IndexMap<K, V, S>);

/// The keys of an `IndexMap<String, ()>`, in their order in the map.
pub uninterp spec fn index_keys(m: IndexMap<String, ()>) -> Seq<Seq<char>>;

/// `IndexMap::new`: the new map holds no key.
#[verifier::external_body]
pub(crate) fn key_index_new() -> (m: IndexMap<String, ()>)
    ensures
        index_keys(m) == Seq::<Seq<char>>::empty(),
{
    IndexMap::new()
}

/// `IndexMap::get_index_of`: the position of `key` among the map's keys, or
/// `None` when it is not one of them.
#[verifier::external_body]
pub(crate) fn key_index_find(m: &IndexMap<String, ()>, key: &String) -> (r: Option<usize>)
    ensures
        match r {
            Some(i) => i < index_keys(*m).len() && index_keys(*m)[i as int] == key@,
            None => !index_keys(*m).contains(key@),
        },
{
    m.get_index_of(key)
}

/// `IndexMap::insert_full`: a key that is new goes last in the order and its
/// position is returned; a key already present keeps its position, which is returned.
#[verifier::external_body]
pub(crate) fn key_index_insert(m: &mut IndexMap<String, ()>, key: String) -> (pos: usize)
    ensures
        !index_keys(*old(m)).contains(key@) ==> index_keys(*final(m)) == index_keys(
            *old(m),
        ).push(key@) && pos == index_keys(*old(m)).len(),
        index_keys(*old(m)).contains(key@) ==> index_keys(*final(m)) == index_keys(*old(m))
            && pos < index_keys(*old(m)).len() && index_keys(*old(m))[pos as int] == key@,
{
    m.insert_full(key, ()).0
}

} // verus!
