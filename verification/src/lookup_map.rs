//! The value store: the values of the map, addressed by key.
//!
//! The store knows nothing of order. It answers for one key at a time, and
//! never has to look at a value in order to drop it.

use crate::order::{key_laws, lt};
use std::collections::BTreeMap;
use vstd::prelude::*;

verus! {

/// The values of the map by key. Its view is the mapping from keys to values.
pub struct LookupMap<K, V> {
    prefix: Vec<u8>,
    entries: BTreeMap<K, V>,
    dirty: bool,
}

impl<K, V> View for LookupMap<K, V> {
    type V = Map<K, V>;

    closed spec fn view(&self) -> Map<K, V> {
        self.entries@
    }
}

/// `BTreeMap::get_mut` of the standard library, for a key type that obeys
/// [`key_laws`]: the value stored under `k`, open to change, or nothing if
/// the map has no such key. What the caller writes through the reference is
/// the value under `k` afterwards; nothing else in the map changes.
#[verifier::external_body]
fn entry_mut<'a, K: Ord + Clone, V>(entries: &'a mut BTreeMap<K, V>, k: &K) -> (r: Option<
    &'a mut V,
>)
    ensures
        key_laws::<K>() ==> match r {
            Some(v) => old(entries)@.contains_key(*k) && *v == old(entries)@[*k] && final(entries)@
                == old(entries)@.insert(*k, *final(v)),
            None => !old(entries)@.contains_key(*k) && final(entries)@ == old(entries)@,
        },
{
    entries.get_mut(k)
}

/// `BTreeMap::iter_mut` of the standard library, collected, for a key type
/// that obeys [`key_laws`]: every entry of the map once, in the order of the
/// keys, each value open to change. What the caller writes through a
/// reference is the value under its key afterwards; the keys stay.
#[verifier::external_body]
fn entries_mut<'a, K: Ord + Clone, V>(entries: &'a mut BTreeMap<K, V>) -> (r: Vec<
    (&'a K, &'a mut V),
>)
    ensures
        key_laws::<K>() ==> {
            &&& forall|i: int|
                0 <= i < r@.len() ==> old(entries)@.contains_key(*(#[trigger] r@[i]).0) && *r@[i].1
                    == old(entries)@[*r@[i].0]
            &&& forall|k: K| #[trigger]
                old(entries)@.contains_key(k) ==> exists|i: int|
                    0 <= i < r@.len() && *(#[trigger] r@[i]).0 == k
            &&& forall|i: int, j: int|
                0 <= i < j < r@.len() ==> lt(*(#[trigger] r@[i]).0, *(#[trigger] r@[j]).0)
            &&& final(entries)@.dom() == old(entries)@.dom()
            &&& forall|i: int|
                0 <= i < r@.len() ==> final(entries)@[*(#[trigger] r@[i]).0] == *final(r@[i].1)
        },
{
    entries.iter_mut().collect()
}

impl<K: Ord + Clone, V> LookupMap<K, V> {
    /// The storage namespace the store was created for.
    pub closed spec fn namespace(&self) -> Seq<u8> {
        self.prefix@
    }

    /// Whether the store has changed since it was last flushed.
    pub closed spec fn pending(&self) -> bool {
        self.dirty
    }

    /// An empty store for the namespace `prefix`.
    pub fn new(prefix: Vec<u8>) -> (store: Self)
        ensures
            store@ == Map::<K, V>::empty(),
            store.namespace() == prefix@,
            !store.pending(),
    {
        LookupMap { prefix, entries: BTreeMap::new(), dirty: false }
    }

    /// The namespace the store was created for.
    pub fn prefix(&self) -> (p: &Vec<u8>)
        ensures
            p@ == self.namespace(),
    {
        &self.prefix
    }

    /// Whether anything has changed since the last flush.
    pub fn is_dirty(&self) -> (d: bool)
        ensures
            d == self.pending(),
    {
        self.dirty
    }

    /// The store holds finitely many entries.
    pub proof fn lemma_finite(&self)
        ensures
            self@.dom().finite(),
    {
    }

    /// Whether the store has a value for `k`.
    pub fn contains_key(&self, k: &K) -> (b: bool)
        requires
            key_laws::<K>(),
        ensures
            b == self@.contains_key(*k),
    {
        self.entries.contains_key(k)
    }

    /// The value stored for `k`.
    pub fn get(&self, k: &K) -> (v: Option<&V>)
        requires
            key_laws::<K>(),
        ensures
            v == (if self@.contains_key(*k) {
                Some(&self@[*k])
            } else {
                None
            }),
    {
        self.entries.get(k)
    }

    /// The value stored for `k`, open to change. What the caller leaves
    /// there is the value for `k` afterwards.
    pub fn get_mut(&mut self, k: &K) -> (v: Option<&mut V>)
        requires
            key_laws::<K>(),
        ensures
            final(self).namespace() == old(self).namespace(),
            match v {
                Some(r) => old(self)@.contains_key(*k) && *r == old(self)@[*k] && final(self)@
                    == old(self)@.insert(*k, *final(r)) && final(self).pending(),
                None => !old(self)@.contains_key(*k) && final(self)@ == old(self)@ && final(self).pending() == old(self).pending(),
            },
    {
        if self.entries.contains_key(k) {
            self.dirty = true;
            entry_mut(&mut self.entries, k)
        } else {
            None
        }
    }

    /// Every entry of the store once, in the order of the keys, each value
    /// open to change. What the caller leaves behind a reference is the
    /// value for its key afterwards.
    pub fn iter_mut(&mut self) -> (r: Vec<(&K, &mut V)>)
        requires
            key_laws::<K>(),
        ensures
            forall|i: int|
                0 <= i < r@.len() ==> old(self)@.contains_key(*(#[trigger] r@[i]).0) && *r@[i].1
                    == old(self)@[*r@[i].0],
            forall|k: K| #[trigger]
                old(self)@.contains_key(k) ==> exists|i: int|
                    0 <= i < r@.len() && *(#[trigger] r@[i]).0 == k,
            forall|i: int, j: int|
                0 <= i < j < r@.len() ==> lt(*(#[trigger] r@[i]).0, *(#[trigger] r@[j]).0),
            final(self)@.dom() == old(self)@.dom(),
            forall|i: int|
                0 <= i < r@.len() ==> final(self)@[*(#[trigger] r@[i]).0] == *final(r@[i].1),
            final(self).namespace() == old(self).namespace(),
            final(self).pending(),
    {
        self.dirty = true;
        entries_mut(&mut self.entries)
    }

    /// Stores `value` for `key`, or drops the entry for `key` where `value`
    /// is nothing. The value that was there is not looked at.
    pub fn set(&mut self, key: K, value: Option<V>)
        requires
            key_laws::<K>(),
        ensures
            final(self)@ == (match value {
                Some(v) => old(self)@.insert(key, v),
                None => old(self)@.remove(key),
            }),
            final(self).namespace() == old(self).namespace(),
            final(self).pending(),
    {
        self.dirty = true;
        match value {
            Some(v) => {
                let _ = self.entries.insert(key, v);
            },
            None => {
                let _ = self.entries.remove(&key);
            },
        }
    }

    /// Stores `value` for `key` and returns the value that was there.
    pub fn insert(&mut self, key: K, value: V) -> (prior: Option<V>)
        requires
            key_laws::<K>(),
        ensures
            final(self)@ == old(self)@.insert(key, value),
            prior == (if old(self)@.contains_key(key) {
                Some(old(self)@[key])
            } else {
                None
            }),
            final(self).namespace() == old(self).namespace(),
            final(self).pending(),
    {
        self.dirty = true;
        self.entries.insert(key, value)
    }

    /// Drops the entry for `k` and returns the value that was there.
    pub fn remove(&mut self, k: &K) -> (prior: Option<V>)
        requires
            key_laws::<K>(),
        ensures
            final(self)@ == old(self)@.remove(*k),
            prior == (if old(self)@.contains_key(*k) {
                Some(old(self)@[*k])
            } else {
                None
            }),
            final(self).namespace() == old(self).namespace(),
            final(self).pending() == (old(self).pending() || old(self)@.contains_key(*k)),
    {
        let prior = self.entries.remove(k);
        if prior.is_some() {
            self.dirty = true;
        }
        prior
    }

    /// Marks everything changed so far as written back. The entries stay.
    pub fn flush(&mut self)
        ensures
            final(self)@ == old(self)@,
            final(self).namespace() == old(self).namespace(),
            !final(self).pending(),
    {
        self.dirty = false;
    }
}

} // verus!
