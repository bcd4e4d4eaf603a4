//! The insertion-ordered map that collects a dictionary's entries while it
//! is read, provided by the `indexmap` crate.
use vstd::prelude::*;
use indexmap::IndexMap;
use crate::bencode::Bencode;
use crate::byte_string::ByteString;
use crate::grammar::insert_entry;

verus! {

#[verifier::external_type_specification]
#[verifier::external_body]
#[verifier::reject_recursive_types(K)]
#[verifier::reject_recursive_types(V)]
#[verifier::reject_recursive_types(S)]
pub struct ExIndexMap<K, V, S>(IndexMap<K, V, S>);

/// The entries of an ordered map, keys as bytes, in the map's order.
pub uninterp spec fn entries_of(m: IndexMap<Vec<u8>, Bencode>) -> Seq<(Seq<u8>, Bencode)>;

/// Relies on `IndexMap::new`: a new map holds no entry.
#[verifier::external_body]
pub(crate) fn new_map() -> (r: IndexMap<Vec<u8>, Bencode>)
    ensures
        entries_of(r) == Seq::<(Seq<u8>, Bencode)>::empty(),
{
    IndexMap::new()
}

/// Relies on `IndexMap::insert`: a key that is already there keeps its
/// place in the order and takes the new value; a new key goes last. Keys
/// are `Vec<u8>`, equal exactly when their bytes are.
#[verifier::external_body]
pub(crate) fn insert(m: &mut IndexMap<Vec<u8>, Bencode>, key: Vec<u8>, value: Bencode)
    ensures
        entries_of(*final(m)) == insert_entry(entries_of(*old(m)), key@, value),
{
    m.insert(key, value);
}

/// Relies on `IndexMap`'s by-value iterator: it yields every entry once, in
/// the map's order.
#[verifier::external_body]
pub(crate) fn into_entries(m: IndexMap<Vec<u8>, Bencode>) -> (r: Vec<(ByteString, Bencode)>)
    ensures
        r@.len() == entries_of(m).len(),
        forall|i: int|
            0 <= i < r@.len() ==> (#[trigger] r@[i]).0@ == entries_of(m)[i].0 && r@[i].1
                == entries_of(m)[i].1,
{
    m.into_iter().map(|(k, v)| (ByteString(k), v)).collect()
}

} // verus!
