//! A node of the index: one key and the links to its two subtrees.

use crate::free_list::{FreeList, FreeListIndex};
use vstd::prelude::*;

verus! {

/// The value inside `val`, which the caller knows to be there.
pub fn expect<T>(val: Option<T>) -> (r: T)
    requires
        val.is_some(),
    ensures
        r == val.unwrap(),
{
    val.unwrap()
}

/// One entry of the arena: a key in tree order.
///
/// `ht` is the height of the subtree rooted here; a node without children has
/// height 1.
#[derive(Debug)]
pub struct Node<K> {
    pub key: K,
    pub lft: Option<FreeListIndex>,
    pub rgt: Option<FreeListIndex>,
    pub ht: u32,
}

/// What following `link` in `list` leads to: the slot and its node, or nothing
/// where there is no link or the link points outside the arena.
pub open spec fn follow<K>(list: Seq<Node<K>>, link: Option<FreeListIndex>) -> Option<
    (FreeListIndex, Node<K>),
> {
    match link {
        Some(id) => if id.0 < list.len() {
            Some((id, list[id.0 as int]))
        } else {
            None
        },
        None => None,
    }
}

impl<K> Node<K> {
    /// A node for `key` with no children, of height 1.
    pub fn of(key: K) -> (node: Self)
        ensures
            node.key == key,
            node.lft.is_none(),
            node.rgt.is_none(),
            node.ht == 1,
    {
        Node { key, lft: None, rgt: None, ht: 1 }
    }

    /// The left child with its slot, if there is one.
    pub fn left<'a>(&self, list: &'a FreeList<Node<K>>) -> (child: Option<
        (FreeListIndex, &'a Node<K>),
    >)
        ensures
            match follow(list@, self.lft) {
                Some((id, node)) => child == Some((id, &node)),
                None => child.is_none(),
            },
    {
        match self.lft {
            Some(id) => match list.get(id) {
                Some(node) => Some((id, node)),
                None => None,
            },
            None => None,
        }
    }

    /// The right child with its slot, if there is one.
    pub fn right<'a>(&self, list: &'a FreeList<Node<K>>) -> (child: Option<
        (FreeListIndex, &'a Node<K>),
    >)
        ensures
            match follow(list@, self.rgt) {
                Some((id, node)) => child == Some((id, &node)),
                None => child.is_none(),
            },
    {
        match self.rgt {
            Some(id) => match list.get(id) {
                Some(node) => Some((id, node)),
                None => None,
            },
            None => None,
        }
    }
}

} // verus!
