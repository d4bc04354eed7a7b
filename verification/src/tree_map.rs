//! The ordered map: the index and the value store held to the same keys.

use crate::free_list::FreeListIndex;
use crate::link_lemmas::lemma_linked_key;
use crate::lookup_map::LookupMap;
use crate::node::expect;
use crate::order::{key_clone, key_laws, lemma_order, lt};
use crate::shape_lemmas::lemma_keys_len;
use crate::shape::{slots_without, Shape};
use crate::tree::Tree;
use crate::vectors::{in_slot_order, second_parts};
use vstd::prelude::*;

verus! {

/// The byte `v`, which ends the namespace of the values.
pub const VALUES_SUFFIX: u8 = 118;

/// The byte `n`, which ends the namespace of the nodes.
pub const NODES_SUFFIX: u8 = 110;

/// An ordered map from `K` to `V`.
///
/// The keys live in an AVL tree whose nodes are the slots of an arena; the
/// values live in a store addressed by key. Looking a key up does not touch
/// the tree; asking for a neighbour of a key does not touch the values.
///
/// `get` and `contains_key` read one entry of the store. `insert`, `remove`,
/// `floor_key` and `ceil_key` read no more nodes than a few times the height
/// of the tree.
///
/// The view of the map is the mapping from its keys to their values.
pub struct TreeMap<K, V> {
    values: LookupMap<K, V>,
    tree: Tree<K>,
}

impl<K, V> View for TreeMap<K, V> {
    type V = Map<K, V>;

    closed spec fn view(&self) -> Map<K, V> {
        self.values@
    }
}

impl<K: Ord + Clone, V> TreeMap<K, V> {
    /// The index over the keys.
    pub closed spec fn index(&self) -> Tree<K> {
        self.tree
    }

    /// The store of the values.
    pub closed spec fn store(&self) -> LookupMap<K, V> {
        self.values
    }

    /// The keys in the order of their slots, which is the order of iteration.
    pub open spec fn slot_keys(&self) -> Seq<K> {
        self.index().slot_keys()
    }

    /// The invariant of the map: the index is well-formed and holds exactly
    /// the keys that have a value.
    pub open spec fn wf(&self) -> bool {
        &&& self.index().wf()
        &&& self@ == self.store()@
        &&& self@.dom() =~= self.index()@
    }

    /// The slots of a well-formed map hold exactly its keys, each key once:
    /// iterating over the slots meets every entry of the map, and none twice.
    pub proof fn lemma_slots(&self)
        requires
            self.wf(),
        ensures
            self@.dom().finite(),
            self.slot_keys().len() == self@.dom().len(),
            self.slot_keys().no_duplicates(),
            forall|i: int|
                0 <= i < self.slot_keys().len() ==> self@.contains_key(
                    #[trigger] self.slot_keys()[i],
                ),
            forall|k: K| #[trigger] self@.contains_key(k) ==> self.slot_keys().contains(k),
    {
        lemma_keys_len(self.index().shape());
        assert forall|k: K| #[trigger] self@.contains_key(k) implies self.slot_keys().contains(
            k,
        ) by {
            assert(self.index().shape().keys().contains(k));
            lemma_linked_key(self.index().arena(), self.index().root_link(), self.index().shape(), k);
            let j = choose|j: int|
                0 <= j < self.index().arena().len() && #[trigger] self.index().arena()[j].key == k;
            assert(self.slot_keys()[j] == k);
        }
    }

    /// An empty map whose stores live under the namespace `prefix`.
    pub fn new(prefix: Vec<u8>) -> (map: Self)
        requires
            key_laws::<K>(),
        ensures
            map.wf(),
            map@ == Map::<K, V>::empty(),
            map.index().shape() == Shape::<K>::Nil,
            map.slot_keys() == Seq::<K>::empty(),
            map.store().namespace() == prefix@.push(VALUES_SUFFIX),
            map.index().list().namespace() == prefix@.push(NODES_SUFFIX),
            !map.store().pending(),
            !map.index().list().pending(),
    {
        Self::with_hasher(prefix)
    }

    /// An empty map whose stores live under the namespace `prefix`: the
    /// values under `prefix` followed by the byte `v`, the nodes under
    /// `prefix` followed by the byte `n`. The digest that turns a key into
    /// the slot of its value is applied where the map is written to storage;
    /// the map itself addresses its values by key.
    pub fn with_hasher(prefix: Vec<u8>) -> (map: Self)
        requires
            key_laws::<K>(),
        ensures
            map.wf(),
            map@ == Map::<K, V>::empty(),
            map.index().shape() == Shape::<K>::Nil,
            map.slot_keys() == Seq::<K>::empty(),
            map.store().namespace() == prefix@.push(VALUES_SUFFIX),
            map.index().list().namespace() == prefix@.push(NODES_SUFFIX),
            !map.store().pending(),
            !map.index().list().pending(),
    {
        let mut vec_key = prefix;
        let mut map_key = vec_key.clone();
        map_key.push(VALUES_SUFFIX);
        vec_key.push(NODES_SUFFIX);
        let map = TreeMap { values: LookupMap::new(map_key), tree: Tree::new(vec_key) };
        proof {
            assert(map.tree@ =~= map.values@.dom());
            assert(map.slot_keys() =~= Seq::<K>::empty());
        }
        map
    }

    /// The index over the keys.
    pub fn tree(&self) -> (tree: &Tree<K>)
        ensures
            *tree == self.index(),
    {
        &self.tree
    }

    /// The store of the values.
    pub fn lookup_map(&self) -> (store: &LookupMap<K, V>)
        ensures
            *store == self.store(),
    {
        &self.values
    }

    /// The number of entries.
    pub fn len(&self) -> (n: u32)
        requires
            self.wf(),
        ensures
            n == self@.dom().len(),
            n == self.slot_keys().len(),
    {
        proof {
            lemma_keys_len(self.tree.shape@);
        }
        self.tree.nodes.len()
    }

    /// Whether the map has no entries.
    pub fn is_empty(&self) -> (b: bool)
        requires
            self.wf(),
        ensures
            b == (self@.dom().len() == 0),
            b == (self@ == Map::<K, V>::empty()),
    {
        proof {
            lemma_keys_len(self.tree.shape@);
            if self@.dom().len() == 0 {
                assert(self@ =~= Map::<K, V>::empty());
            }
        }
        self.tree.nodes.is_empty()
    }

    /// Removes every entry. The values are dropped without being read.
    pub fn clear(&mut self)
        requires
            old(self).wf(),
        ensures
            final(self).wf(),
            final(self)@ == Map::<K, V>::empty(),
            final(self).index().shape() == Shape::<K>::Nil,
            final(self).slot_keys() == Seq::<K>::empty(),
            final(self).index().root_link().is_none(),
            final(self).index().list().pending(),
            old(self).slot_keys().len() > 0 ==> final(self).store().pending(),
            final(self).store().namespace() == old(self).store().namespace(),
            final(self).index().list().namespace() == old(self).index().list().namespace(),
    {
        let ghost all = self.tree.nodes@;
        let ghost root = self.tree.root;
        let ghost shape = self.tree.shape@;
        let mut items = self.tree.drain();
        proof {
            assert forall|k: K| #[trigger] self.values@.contains_key(k) implies exists|i: int|
                0 <= i < items@.len() && #[trigger] items@[i].key == k by {
                assert(shape.keys().contains(k));
                lemma_linked_key(all, root, shape, k);
            }
        }
        while items.len() > 0
            invariant
                key_laws::<K>(),
                self.tree.wf(),
                self.tree@ == Set::<K>::empty(),
                self.tree.shape@ == Shape::<K>::Nil,
                self.tree.root.is_none(),
                self.tree.nodes@.len() == 0,
                self.tree.nodes.pending(),
                self.tree.nodes.namespace() == old(self).tree.nodes.namespace(),
                self.values.namespace() == old(self).values.namespace(),
                items@.len() <= all.len(),
                items@.len() < all.len() ==> self.values.pending(),
                forall|k: K| #[trigger]
                    self.values@.contains_key(k) ==> exists|i: int|
                        0 <= i < items@.len() && #[trigger] items@[i].key == k,
            decreases items.len(),
        {
            let ghost before = items@;
            let ghost held = self.values@;
            let node = expect(items.pop());
            self.values.set(node.key, None);
            proof {
                assert forall|k: K| #[trigger] self.values@.contains_key(k) implies exists|i: int|
                    0 <= i < items@.len() && #[trigger] items@[i].key == k by {
                    assert(held.contains_key(k));
                    let i = choose|i: int| 0 <= i < before.len() && #[trigger] before[i].key == k;
                    assert(items@[i].key == k);
                }
            }
        }
        proof {
            assert(self.values@ =~= Map::<K, V>::empty());
            assert(self.tree@ =~= self.values@.dom());
            assert(self.slot_keys() =~= Seq::<K>::empty());
        }
    }

    /// Whether the map has a value for `k`.
    pub fn contains_key(&self, k: &K) -> (b: bool)
        requires
            self.wf(),
        ensures
            b == self@.contains_key(*k),
    {
        self.values.contains_key(k)
    }

    /// The value for `k`.
    pub fn get(&self, k: &K) -> (v: Option<&V>)
        requires
            self.wf(),
        ensures
            v == (if self@.contains_key(*k) {
                Some(&self@[*k])
            } else {
                None
            }),
    {
        self.values.get(k)
    }

    /// The value for `k`, open to change. What the caller leaves there is
    /// the value for `k` afterwards; the keys and their slots stay.
    pub fn get_mut(&mut self, k: &K) -> (v: Option<&mut V>)
        requires
            old(self).wf(),
        ensures
            final(self).wf(),
            final(self).index() == old(self).index(),
            match v {
                Some(r) => old(self)@.contains_key(*k) && *r == old(self)@[*k] && final(self)@
                    == old(self)@.insert(*k, *final(r)) && final(self).store().pending(),
                None => !old(self)@.contains_key(*k) && final(self)@ == old(self)@ && final(self).store().pending() == old(self).store().pending(),
            },
    {
        self.values.get_mut(k)
    }

    /// Stores `value` for `key` and returns the value that was there.
    ///
    /// A key that the map has already keeps its node and its slot. A new key
    /// gets a node in the next free slot, and the tree is rebalanced.
    pub fn insert(&mut self, key: K, value: V) -> (prior: Option<V>)
        requires
            old(self).wf(),
            old(self)@.contains_key(key) || old(self).slot_keys().len() < u32::MAX,
        ensures
            final(self).wf(),
            final(self)@ == old(self)@.insert(key, value),
            prior == (if old(self)@.contains_key(key) {
                Some(old(self)@[key])
            } else {
                None
            }),
            final(self).store().pending(),
            old(self)@.contains_key(key) ==> final(self).index() == old(self).index(),
            !old(self)@.contains_key(key) ==> final(self).index().list().pending(),
            !old(self)@.contains_key(key) ==> final(self).index().shape() == old(self).index().shape().grown(key) && final(self).slot_keys() == old(self).slot_keys().push(
                key,
            ),
            final(self).store().namespace() == old(self).store().namespace(),
            final(self).index().list().namespace() == old(self).index().list().namespace(),
    {
        if self.values.contains_key(&key) {
            let prior = self.values.insert(key, value);
            proof {
                assert(self.values@.dom() =~= old(self).values@.dom());
            }
            prior
        } else {
            self.tree.internal_insert(key_clone(&key));
            let prior = self.values.insert(key, value);
            proof {
                assert(self.values@.dom() =~= self.tree@);
            }
            prior
        }
    }

    /// Removes the entry for `key` and returns its value. Nothing changes if
    /// the map has no such key.
    pub fn remove(&mut self, key: &K) -> (prior: Option<V>)
        requires
            old(self).wf(),
        ensures
            final(self).wf(),
            final(self)@ == old(self)@.remove(*key),
            prior == (if old(self)@.contains_key(*key) {
                Some(old(self)@[*key])
            } else {
                None
            }),
            !old(self)@.contains_key(*key) ==> final(self).index() == old(self).index() && final(self).store().pending() == old(self).store().pending(),
            old(self)@.contains_key(*key) ==> final(self).store().pending() && final(self).index().list().pending(),
            final(self).index().shape() == old(self).index().shape().pruned(*key),
            final(self).slot_keys() == slots_without(
                old(self).slot_keys(),
                old(self).index().shape(),
                *key,
            ),
            final(self).store().namespace() == old(self).store().namespace(),
            final(self).index().list().namespace() == old(self).index().list().namespace(),
    {
        let existing = self.values.remove(key);
        if existing.is_some() {
            let _ = self.tree.do_remove(key);
            proof {
                assert(self.values@.dom() =~= self.tree@);
            }
        } else {
            proof {
                assert(self.values@ =~= old(self).values@);
            }
        }
        existing
    }

    /// Removes the entry for `k` and returns its key and value. Nothing
    /// changes if the map has no such key.
    pub fn remove_entry(&mut self, k: &K) -> (prior: Option<(K, V)>)
        requires
            old(self).wf(),
        ensures
            final(self).wf(),
            final(self)@ == old(self)@.remove(*k),
            prior == (if old(self)@.contains_key(*k) {
                Some((*k, old(self)@[*k]))
            } else {
                None
            }),
            !old(self)@.contains_key(*k) ==> final(self).index() == old(self).index(),
            final(self).index().shape() == old(self).index().shape().pruned(*k),
            final(self).slot_keys() == slots_without(
                old(self).slot_keys(),
                old(self).index().shape(),
                *k,
            ),
            final(self).store().namespace() == old(self).store().namespace(),
            final(self).index().list().namespace() == old(self).index().list().namespace(),
    {
        match self.remove(k) {
            Some(value) => Some((key_clone(k), value)),
            None => None,
        }
    }

    /// The smallest key of the map that does not sort before `key`.
    pub fn ceil_key<'a>(&'a self, key: &'a K) -> (r: Option<&'a K>)
        requires
            self.wf(),
        ensures
            match r {
                Some(k) => self@.contains_key(*k) && !lt(*k, *key) && forall|y: K| #[trigger]
                    self@.contains_key(y) && !lt(y, *key) ==> y == *k || lt(*k, y),
                None => forall|y: K| #[trigger] self@.contains_key(y) ==> lt(y, *key),
            },
    {
        proof {
            lemma_order::<K>();
        }
        if self.contains_key(key) {
            Some(key)
        } else {
            let r = self.tree.higher(key);
            proof {
                assert forall|y: K| #[trigger] self@.contains_key(y) implies self.tree@.contains(
                    y,
                ) by {}
            }
            r
        }
    }

    /// The largest key of the map that does not sort after `key`.
    pub fn floor_key<'a>(&'a self, key: &'a K) -> (r: Option<&'a K>)
        requires
            self.wf(),
        ensures
            match r {
                Some(k) => self@.contains_key(*k) && !lt(*key, *k) && forall|y: K| #[trigger]
                    self@.contains_key(y) && !lt(*key, y) ==> y == *k || lt(y, *k),
                None => forall|y: K| #[trigger] self@.contains_key(y) ==> lt(*key, y),
            },
    {
        proof {
            lemma_order::<K>();
        }
        if self.contains_key(key) {
            Some(key)
        } else {
            let r = self.tree.lower(key);
            proof {
                assert forall|y: K| #[trigger] self@.contains_key(y) implies self.tree@.contains(
                    y,
                ) by {}
            }
            r
        }
    }

    /// Every entry of the map, in the order of the slots of the keys. This is
    /// not the order of the keys.
    pub fn iter(&self) -> (entries: Vec<(&K, &V)>)
        requires
            self.wf(),
        ensures
            entries@.len() == self.slot_keys().len(),
            forall|i: int|
                0 <= i < entries@.len() ==> *(#[trigger] entries@[i]).0 == self.slot_keys()[i]
                    && self@.contains_key(*entries@[i].0) && *entries@[i].1
                    == self@[self.slot_keys()[i]],
    {
        let n = self.tree.nodes.len();
        let mut entries: Vec<(&K, &V)> = Vec::new();
        let mut i: u32 = 0;
        while i < n
            invariant
                self.wf(),
                n == self.tree.nodes@.len(),
                i <= n,
                entries@.len() == i,
                forall|j: int|
                    0 <= j < i ==> *(#[trigger] entries@[j]).0 == self.slot_keys()[j]
                        && self@.contains_key(*entries@[j].0) && *entries@[j].1
                        == self@[self.slot_keys()[j]],
            decreases n - i,
        {
            let node = expect(self.tree.node(FreeListIndex(i)));
            proof {
                assert(self.tree.shape@.keys().contains(self.tree.nodes@[i as int].key));
            }
            let value = expect(self.values.get(&node.key));
            entries.push((&node.key, value));
            i = i + 1;
        }
        entries
    }

    /// Every entry of the map, in the order of the slots of the keys, each
    /// value open to change. What the caller leaves behind a reference is
    /// the value for its key afterwards; the keys and their slots stay.
    pub fn iter_mut(&mut self) -> (entries: Vec<(&K, &mut V)>)
        requires
            old(self).wf(),
        ensures
            final(self).wf(),
            final(self).index() == old(self).index(),
            final(self)@.dom() == old(self)@.dom(),
            entries@.len() == old(self).slot_keys().len(),
            forall|i: int|
                0 <= i < entries@.len() ==> *(#[trigger] entries@[i]).0 == old(self).slot_keys()[i]
                    && *entries@[i].1 == old(self)@[old(self).slot_keys()[i]],
            forall|i: int|
                0 <= i < entries@.len() ==> final(self)@[old(self).slot_keys()[i]] == *final((#[trigger] entries@[i]).1),
    {
        let tree = &self.tree;
        let ghost held = self.values@;
        let n = tree.nodes.len() as usize;
        let mut sorted = self.values.iter_mut();
        let ghost orig = sorted@;
        let mut placed: Vec<Option<(&K, &mut V)>> = Vec::new();
        let mut i: usize = 0;
        while i < n
            invariant
                i <= n,
                placed@.len() == i,
                forall|s: int| 0 <= s < i ==> (#[trigger] placed@[s]).is_none(),
            decreases n - i,
        {
            placed.push(None);
            i = i + 1;
        }
        while sorted.len() > 0
            invariant
                tree.wf(),
                held.dom() =~= tree@,
                n == tree.nodes@.len(),
                placed@.len() == n,
                sorted@.len() <= orig.len(),
                sorted@ == orig.subrange(0, sorted@.len() as int),
                forall|i: int| 0 <= i < orig.len() ==> held.contains_key(*(#[trigger] orig[i]).0),
                forall|s: int|
                    0 <= s < n ==> match #[trigger] placed@[s] {
                        Some(e) => exists|i: int|
                            0 <= i < orig.len() && #[trigger] orig[i] == e && *e.0
                                == tree.nodes@[s].key,
                        None => forall|i: int|
                            sorted@.len() <= i < orig.len() ==> *(#[trigger] orig[i]).0
                                != tree.nodes@[s].key,
                    },
            decreases sorted.len(),
        {
            let ghost before = placed@;
            let entry = sorted.pop().unwrap();
            proof {
                assert(entry == orig[sorted@.len() as int]);
                assert(tree.shape@.keys().contains(*entry.0));
            }
            let root = expect(tree.root);
            let (slot, _) = expect(tree.lookup_at(root, entry.0, Ghost(tree.shape@)));
            placed.set(slot.0 as usize, Some(entry));
            proof {
                assert forall|s: int| 0 <= s < n implies match #[trigger] placed@[s] {
                    Some(e) => exists|i: int|
                        0 <= i < orig.len() && #[trigger] orig[i] == e && *e.0
                            == tree.nodes@[s].key,
                    None => forall|i: int|
                        sorted@.len() <= i < orig.len() ==> *(#[trigger] orig[i]).0
                            != tree.nodes@[s].key,
                } by {
                    if s == slot.0 {
                        assert(orig[sorted@.len() as int] == entry);
                    } else {
                        assert(placed@[s] == before[s]);
                    }
                }
            }
        }
        proof {
            assert forall|s: int| 0 <= s < n implies (#[trigger] placed@[s]).is_some() by {
                let k = tree.nodes@[s].key;
                assert(tree.shape@.keys().contains(k));
                assert(held.contains_key(k));
                let i = choose|i: int| 0 <= i < orig.len() && *(#[trigger] orig[i]).0 == k;
                assert(*orig[i].0 == k);
            }
        }
        let ghost filled = placed@;
        let entries = in_slot_order(placed);
        proof {
            assert forall|i: int| 0 <= i < entries@.len() implies exists|j: int|
                0 <= j < orig.len() && orig[j] == #[trigger] entries@[i] && *orig[j].0
                    == tree.nodes@[i].key by {
                assert(entries@[i] == filled[i].unwrap());
                let e = filled[i].unwrap();
                let j = choose|j: int|
                    0 <= j < orig.len() && #[trigger] orig[j] == e && *e.0 == tree.nodes@[i].key;
                assert(orig[j] == entries@[i]);
            }
        }
        entries
    }

    /// Every value of the map, in the order of the slots of the keys.
    pub fn values(&self) -> (values: Vec<&V>)
        requires
            self.wf(),
        ensures
            values@.len() == self.slot_keys().len(),
            forall|i: int|
                0 <= i < values@.len() ==> self@.contains_key(self.slot_keys()[i])
                    && *(#[trigger] values@[i]) == self@[self.slot_keys()[i]],
    {
        let n = self.tree.nodes.len();
        let mut values: Vec<&V> = Vec::new();
        let mut i: u32 = 0;
        while i < n
            invariant
                self.wf(),
                n == self.tree.nodes@.len(),
                i <= n,
                values@.len() == i,
                forall|j: int|
                    0 <= j < i ==> self@.contains_key(self.slot_keys()[j])
                        && *(#[trigger] values@[j]) == self@[self.slot_keys()[j]],
            decreases n - i,
        {
            let node = expect(self.tree.node(FreeListIndex(i)));
            proof {
                assert(self.tree.shape@.keys().contains(self.tree.nodes@[i as int].key));
            }
            let value = expect(self.values.get(&node.key));
            values.push(value);
            i = i + 1;
        }
        values
    }

    /// Every value of the map, in the order of the slots of the keys, open to
    /// change. What the caller leaves behind a reference is the value for
    /// the key of that slot afterwards; the keys and their slots stay.
    pub fn values_mut(&mut self) -> (values: Vec<&mut V>)
        requires
            old(self).wf(),
        ensures
            final(self).wf(),
            final(self).index() == old(self).index(),
            final(self)@.dom() == old(self)@.dom(),
            values@.len() == old(self).slot_keys().len(),
            forall|i: int|
                0 <= i < values@.len() ==> *(#[trigger] values@[i]) == old(self)@[old(self).slot_keys()[i]],
            forall|i: int|
                0 <= i < values@.len() ==> final(self)@[old(self).slot_keys()[i]] == *final(#[trigger] values@[i]),
    {
        let entries = self.iter_mut();
        let ghost all = entries@;
        let values = second_parts(entries);
        proof {
            assert forall|i: int| 0 <= i < values@.len() implies #[trigger] values@[i]
                == all[i].1 by {}
        }
        values
    }

    /// Marks everything changed so far, in the value store and in the arena
    /// of the nodes, as written back. The map stays as it is.
    pub fn flush(&mut self)
        ensures
            final(self)@ == old(self)@,
            final(self).wf() == old(self).wf(),
            final(self).slot_keys() == old(self).slot_keys(),
            final(self).store().namespace() == old(self).store().namespace(),
            final(self).index().list().namespace() == old(self).index().list().namespace(),
            !final(self).store().pending(),
            !final(self).index().list().pending(),
    {
        self.values.flush();
        self.tree.flush();
    }
}

} // verus!
