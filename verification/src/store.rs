//! Trusted boundary to the ordered byte store.
//!
//! The store is a sled tree: a sorted map from byte sequence to byte
//! sequence. Its logical contents are modeled as a `Map<Seq<u8>, Seq<u8>>`
//! through the uninterpreted function [`tree_entries`], and each operation
//! the library uses gets a wrapper whose contract states what the call does
//! to those contents. Nothing is claimed when a call reports a store
//! failure. The contracts describe a tree that is not mutated through
//! other handles while an operation runs; the store serializes individual
//! calls, but multi-call operations are not atomic.

use vstd::prelude::*;

use crate::codec::{is_prefix_of, lex_lt};
use crate::Error;

verus! {

#[verifier::external_type_specification]
#[verifier::external_body]
pub struct ExTree(sled::Tree);

/// The logical contents of one sled tree: the finite map of key/value pairs
/// it currently holds.
pub uninterp spec fn tree_entries(t: sled::Tree) -> Map<Seq<u8>, Seq<u8>>;

/// Relies on sled::Tree::insert: on success the tree maps `key` to `value`
/// and every other key is unchanged.
#[verifier::external_body]
pub(crate) fn tree_put(t: &mut sled::Tree, key: &Vec<u8>, value: &Vec<u8>) -> (r: Result<(), Error>)
    ensures
        r matches Ok(u) ==> tree_entries(*final(t)) == tree_entries(*old(t)).insert(key@, value@),
        r matches Err(e) ==> e == Error::StoreFailure,
{
    t.insert(key.as_slice(), value.as_slice()).map(|_| ()).map_err(|_| Error::StoreFailure)
}

/// Relies on sled::Tree::get: point lookup of one key, no modification.
#[verifier::external_body]
pub(crate) fn tree_get(t: &sled::Tree, key: &Vec<u8>) -> (r: Result<Option<Vec<u8>>, Error>)
    ensures
        r matches Ok(o) ==> match o {
            Some(v) => tree_entries(*t).contains_key(key@) && v@ == tree_entries(*t)[key@],
            None => !tree_entries(*t).contains_key(key@),
        },
        r matches Err(e) ==> e == Error::StoreFailure,
{
    t.get(key.as_slice()).map(|o| o.map(|v| v.as_ref().to_vec())).map_err(|_| Error::StoreFailure)
}

/// Relies on sled::Tree::remove: on success the key is absent and every
/// other key is unchanged.
#[verifier::external_body]
pub(crate) fn tree_del(t: &mut sled::Tree, key: &Vec<u8>) -> (r: Result<(), Error>)
    ensures
        r matches Ok(u) ==> tree_entries(*final(t)) == tree_entries(*old(t)).remove(key@),
        r matches Err(e) ==> e == Error::StoreFailure,
{
    t.remove(key.as_slice()).map(|_| ()).map_err(|_| Error::StoreFailure)
}

/// Relies on sled::Tree::scan_prefix: yields exactly the pairs whose key
/// starts with `prefix`, in ascending byte-lexicographic key order.
#[verifier::external_body]
pub(crate) fn tree_scan_prefix(t: &sled::Tree, prefix: &Vec<u8>) -> (r: Result<Vec<(Vec<u8>, Vec<u8>)>, Error>)
    ensures
        r matches Ok(v) ==> {
            &&& forall|i: int|
                0 <= i < v@.len() ==> tree_entries(*t).contains_key(#[trigger] v@[i].0@)
                    && is_prefix_of(prefix@, v@[i].0@) && tree_entries(*t)[v@[i].0@] == v@[i].1@
            &&& forall|k: Seq<u8>|
                tree_entries(*t).contains_key(k) && #[trigger] is_prefix_of(prefix@, k)
                    ==> exists|i: int| 0 <= i < v@.len() && (#[trigger] v@[i].0)@ == k
            &&& forall|i: int, j: int|
                0 <= i < j < v@.len() ==> lex_lt(#[trigger] v@[i].0@, #[trigger] v@[j].0@)
        },
        r matches Err(e) ==> e == Error::StoreFailure,
{
    let mut out: Vec<(Vec<u8>, Vec<u8>)> = Vec::new();
    for item in t.scan_prefix(prefix.as_slice()) {
        let (k, v) = item.map_err(|_| Error::StoreFailure)?;
        out.push((k.as_ref().to_vec(), v.as_ref().to_vec()));
    }
    Ok(out)
}

} // verus!
