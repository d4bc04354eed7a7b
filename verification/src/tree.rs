//! The index: an AVL tree over the keys, its nodes addressed by arena slot.

use crate::free_list::{FreeList, FreeListIndex};
use crate::node::Node;
use crate::order::key_laws;
use crate::shape::{covered, distinct_keys, keys_of, linked, Shape};
use vstd::prelude::*;

verus! {

/// The balanced search tree over the keys of the map.
///
/// Its view is the set of its keys.
pub struct Tree<K> {
    pub(crate) root: Option<FreeListIndex>,
    pub(crate) nodes: FreeList<Node<K>>,
    pub(crate) shape: Ghost<Shape<K>>,
}

impl<K> Tree<K> {
    /// The link to the root node; nothing for the empty tree.
    pub open(crate) spec fn root_link(&self) -> Option<FreeListIndex> {
        self.root
    }

    /// The arena that owns the nodes.
    pub open(crate) spec fn list(&self) -> FreeList<Node<K>> {
        self.nodes
    }

    /// The nodes by slot.
    pub open spec fn arena(&self) -> Seq<Node<K>> {
        self.list()@
    }

    /// The tree that the links from the root spell out.
    pub open(crate) spec fn shape(&self) -> Shape<K> {
        self.shape@
    }

    /// The keys by slot.
    pub open spec fn slot_keys(&self) -> Seq<K> {
        keys_of(self.arena())
    }
}

impl<K> View for Tree<K> {
    type V = Set<K>;

    open spec fn view(&self) -> Set<K> {
        self.shape().keys()
    }
}

impl<K: Ord + Clone> Tree<K> {
    /// The invariant of the index. The links from the root spell out a tree
    /// that is a search tree and AVL-balanced; every occupied slot of the
    /// arena is a node of that tree, and no key is held twice.
    pub open spec fn wf(&self) -> bool {
        &&& key_laws::<K>()
        &&& self.list().wf()
        &&& linked(self.arena(), self.root_link(), self.shape())
        &&& self.shape().ordered()
        &&& self.shape().avl()
        &&& distinct_keys(self.arena())
        &&& covered(self.arena(), self.shape())
        &&& self.shape().size() == self.arena().len()
    }

    /// An empty index whose arena lives in the namespace `prefix`.
    pub fn new(prefix: Vec<u8>) -> (tree: Self)
        requires
            key_laws::<K>(),
        ensures
            tree.wf(),
            tree@ == Set::<K>::empty(),
            tree.shape() == Shape::<K>::Nil,
            tree.root_link().is_none(),
            tree.arena().len() == 0,
            tree.list().namespace() == prefix@,
            !tree.list().pending(),
    {
        Tree { root: None, nodes: FreeList::new(prefix), shape: Ghost(Shape::Nil) }
    }

    /// The slot of the root node.
    pub fn root(&self) -> (r: Option<FreeListIndex>)
        ensures
            r == self.root_link(),
    {
        self.root
    }

    /// The arena of the nodes.
    pub fn nodes(&self) -> (list: &FreeList<Node<K>>)
        ensures
            *list == self.list(),
    {
        &self.nodes
    }

    /// The node in slot `id`, or nothing if the slot is not occupied.
    pub fn node(&self, id: FreeListIndex) -> (node: Option<&Node<K>>)
        ensures
            node == (if id.0 < self.arena().len() {
                Some(&self.arena()[id.0 as int])
            } else {
                None
            }),
    {
        self.nodes.get(id)
    }

    /// Empties the index and returns the nodes it held, in slot order.
    pub fn drain(&mut self) -> (items: Vec<Node<K>>)
        requires
            old(self).wf(),
        ensures
            final(self).wf(),
            final(self)@ == Set::<K>::empty(),
            final(self).shape() == Shape::<K>::Nil,
            final(self).root_link().is_none(),
            final(self).arena().len() == 0,
            items@ == old(self).arena(),
            final(self).list().namespace() == old(self).list().namespace(),
            final(self).list().pending(),
    {
        self.root = None;
        self.shape = Ghost(Shape::Nil);
        self.nodes.drain()
    }

    /// Marks everything changed so far in the arena as written back. The
    /// index stays as it is.
    pub fn flush(&mut self)
        ensures
            final(self).arena() == old(self).arena(),
            final(self).root_link() == old(self).root_link(),
            final(self).shape() == old(self).shape(),
            final(self).wf() == old(self).wf(),
            final(self).list().namespace() == old(self).list().namespace(),
            !final(self).list().pending(),
    {
        self.nodes.flush();
    }

    /// Points the left link of the node in slot `id` to `link`.
    pub(crate) fn set_left(&mut self, id: FreeListIndex, link: Option<FreeListIndex>)
        requires
            id.0 < old(self).nodes@.len(),
        ensures
            final(self).nodes@ == old(self).nodes@.update(
                id.0 as int,
                Node {
                    key: old(self).nodes@[id.0 as int].key,
                    lft: link,
                    rgt: old(self).nodes@[id.0 as int].rgt,
                    ht: old(self).nodes@[id.0 as int].ht,
                },
            ),
            final(self).nodes.wf() == old(self).nodes.wf(),
            final(self).nodes.namespace() == old(self).nodes.namespace(),
            final(self).nodes.pending(),
            final(self).root == old(self).root,
            final(self).shape == old(self).shape,
    {
        match self.nodes.get_mut(id) {
            Some(node) => {
                node.lft = link;
            },
            None => {},
        }
    }

    /// Points the right link of the node in slot `id` to `link`.
    pub(crate) fn set_right(&mut self, id: FreeListIndex, link: Option<FreeListIndex>)
        requires
            id.0 < old(self).nodes@.len(),
        ensures
            final(self).nodes@ == old(self).nodes@.update(
                id.0 as int,
                Node {
                    key: old(self).nodes@[id.0 as int].key,
                    lft: old(self).nodes@[id.0 as int].lft,
                    rgt: link,
                    ht: old(self).nodes@[id.0 as int].ht,
                },
            ),
            final(self).nodes.wf() == old(self).nodes.wf(),
            final(self).nodes.namespace() == old(self).nodes.namespace(),
            final(self).nodes.pending(),
            final(self).root == old(self).root,
            final(self).shape == old(self).shape,
    {
        match self.nodes.get_mut(id) {
            Some(node) => {
                node.rgt = link;
            },
            None => {},
        }
    }

    /// Records `ht` as the height of the node in slot `id`.
    pub(crate) fn set_height(&mut self, id: FreeListIndex, ht: u32)
        requires
            id.0 < old(self).nodes@.len(),
        ensures
            final(self).nodes@ == old(self).nodes@.update(
                id.0 as int,
                Node {
                    key: old(self).nodes@[id.0 as int].key,
                    lft: old(self).nodes@[id.0 as int].lft,
                    rgt: old(self).nodes@[id.0 as int].rgt,
                    ht: ht,
                },
            ),
            final(self).nodes.wf() == old(self).nodes.wf(),
            final(self).nodes.namespace() == old(self).nodes.namespace(),
            final(self).nodes.pending(),
            final(self).root == old(self).root,
            final(self).shape == old(self).shape,
    {
        match self.nodes.get_mut(id) {
            Some(node) => {
                node.ht = ht;
            },
            None => {},
        }
    }

    /// Puts `key` into the node in slot `id`.
    pub(crate) fn set_key(&mut self, id: FreeListIndex, key: K)
        requires
            id.0 < old(self).nodes@.len(),
        ensures
            final(self).nodes@ == old(self).nodes@.update(
                id.0 as int,
                Node {
                    key: key,
                    lft: old(self).nodes@[id.0 as int].lft,
                    rgt: old(self).nodes@[id.0 as int].rgt,
                    ht: old(self).nodes@[id.0 as int].ht,
                },
            ),
            final(self).nodes.wf() == old(self).nodes.wf(),
            final(self).nodes.namespace() == old(self).nodes.namespace(),
            final(self).nodes.pending(),
            final(self).root == old(self).root,
            final(self).shape == old(self).shape,
    {
        match self.nodes.get_mut(id) {
            Some(node) => {
                node.key = key;
            },
            None => {},
        }
    }
}

} // verus!
