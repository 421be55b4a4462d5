//! Shared buffers and hash tables that come from outside the crate, behind contracts on their contents.

use bytes::Bytes;
use rustc_hash::{FxBuildHasher, FxHashMap};
use std::sync::Arc;
use vstd::prelude::*;

verus! {

/// `bytes::Bytes`, an immutable byte buffer that is cheap to share.
#[verifier::external_type_specification]
#[verifier::external_body]
pub struct ExBytes(bytes::Bytes);

/// The bytes that a buffer holds.
pub uninterp spec fn bytes_of(b: bytes::Bytes) -> Seq<u8>;

/// `Bytes::from(Vec<u8>)`: the buffer takes over the bytes of the vector.
#[verifier::external_body]
pub(crate) fn bytes_from(v: Vec<u8>) -> (r: Bytes)
    ensures
        bytes_of(r) == v@,
{
    Bytes::from(v)
}

/// `Bytes::clone`: a second handle on the same bytes.
#[verifier::external_body]
pub(crate) fn bytes_share(b: &Bytes) -> (r: Bytes)
    ensures
        bytes_of(r) == bytes_of(*b),
{
    b.clone()
}

/// `Bytes::as_ref`: the bytes as a slice.
#[verifier::external_body]
pub(crate) fn bytes_slice(b: &Bytes) -> (r: &[u8])
    ensures
        r@ == bytes_of(*b),
{
    b.as_ref()
}

/// `Arc::clone`: a second handle on the same value.
#[verifier::external_body]
pub(crate) fn share<T>(a: &Arc<T>) -> (r: Arc<T>)
    ensures
        r == *a,
{
    Arc::clone(a)
}

/// `rustc_hash::FxBuildHasher`, the hasher of the item table.
#[verifier::external_type_specification]
#[verifier::external_body]
pub struct ExFxBuildHasher(rustc_hash::FxBuildHasher);

/// `FxHashMap::default`: no entry.
#[verifier::external_body]
pub(crate) fn fx_new<T>() -> (table: FxHashMap<u64, T>)
    ensures
        table@.dom() == Set::<u64>::empty(),
{
    FxHashMap::default()
}

/// `FxHashMap::get` on an integer key: the value that the key maps to, if there is one.
#[verifier::external_body]
pub(crate) fn fx_get<'a, T>(m: &'a FxHashMap<u64, T>, k: u64) -> (r: Option<&'a T>)
    ensures
        match r {
            Some(v) => m@.contains_key(k) && m@[k] == *v,
            None => !m@.contains_key(k),
        },
{
    m.get(&k)
}

/// `FxHashMap::insert` on an integer key: the key maps to the value, and the other keys to theirs.
#[verifier::external_body]
pub(crate) fn fx_insert<T>(m: &mut FxHashMap<u64, T>, k: u64, v: T)
    ensures
        final(m)@ == old(m)@.insert(k, v),
{
    m.insert(k, v);
}

/// `FxHashMap::remove` on an integer key: the key maps to nothing, and what it mapped to is handed out.
#[verifier::external_body]
pub(crate) fn fx_remove<T>(m: &mut FxHashMap<u64, T>, k: u64) -> (r: Option<T>)
    ensures
        final(m)@ == old(m)@.remove(k),
        match r {
            Some(v) => old(m)@.contains_key(k) && old(m)@[k] == v,
            None => !old(m)@.contains_key(k),
        },
{
    m.remove(&k)
}

/// `FxHashMap::keys`: every key once, in no stated order.
#[verifier::external_body]
pub(crate) fn fx_keys<T>(m: &FxHashMap<u64, T>) -> (r: Vec<u64>)
    ensures
        r@.to_set() == m@.dom(),
        r@.no_duplicates(),
{
    m.keys().copied().collect()
}

/// A table from texts to integers, held in an `FxHashMap`.
#[verifier::external_body]
pub struct KeyTable {
    inner: FxHashMap<String, u64>,
}

/// What each text of the table maps to.
pub uninterp spec fn key_entries(t: KeyTable) -> Map<Seq<char>, u64>;

impl KeyTable {
    pub open spec fn view(&self) -> Map<Seq<char>, u64> {
        key_entries(*self)
    }

    /// `FxHashMap::default`: no entry.
    #[verifier::external_body]
    pub(crate) fn new() -> (table: KeyTable)
        ensures
            key_entries(table).dom() == Set::<Seq<char>>::empty(),
    {
        KeyTable { inner: FxHashMap::default() }
    }

    /// `FxHashMap::get`: the integer that the text maps to, if there is one.
    #[verifier::external_body]
    pub(crate) fn get(&self, key: &str) -> (r: Option<u64>)
        ensures
            r == (if key_entries(*self).contains_key(key@) {
                Some(key_entries(*self)[key@])
            } else {
                None
            }),
    {
        self.inner.get(key).copied()
    }

    /// `FxHashMap::insert`: the text maps to the integer, and the other texts to theirs.
    #[verifier::external_body]
    pub(crate) fn insert(&mut self, key: String, id: u64)
        ensures
            key_entries(*final(self)) == key_entries(*old(self)).insert(key@, id),
    {
        self.inner.insert(key, id);
    }

    /// `FxHashMap::remove`: the text maps to nothing, and the other texts to theirs.
    #[verifier::external_body]
    pub(crate) fn remove(&mut self, key: &str)
        ensures
            key_entries(*final(self)) == key_entries(*old(self)).remove(key@),
    {
        self.inner.remove(key);
    }

    /// `FxHashMap::len`: the number of entries.
    #[verifier::external_body]
    pub(crate) fn len(&self) -> (r: usize)
        ensures
            r == key_entries(*self).dom().len(),
    {
        self.inner.len()
    }
}

} // verus!
