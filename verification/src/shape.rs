//! The mathematical model of the index: a binary tree of keys.
//!
//! A [`Shape`] says which key sits above which and what height each node has
//! on record. It knows nothing of slots: [`linked`] ties a shape to an arena
//! by following the links from a given one.

use crate::free_list::FreeListIndex;
use crate::node::Node;
use crate::order::lt;
use vstd::prelude::*;

verus! {

/// A binary tree of keys, each node with the height it has on record.
pub enum Shape<K> {
    Nil,
    Fork { left: Box<Shape<K>>, key: K, ht: nat, right: Box<Shape<K>> },
}

/// The larger of two naturals.
pub open spec fn max_nat(a: nat, b: nat) -> nat {
    if a >= b {
        a
    } else {
        b
    }
}

/// `h` is the height of a node whose subtrees have heights `hl` and `hr`, and
/// these differ by at most one.
pub open spec fn bal_ok(h: nat, hl: nat, hr: nat) -> bool {
    &&& h == 1 + max_nat(hl, hr)
    &&& hl <= hr + 1
    &&& hr <= hl + 1
}

/// The least number of keys in a balanced tree of height `h`.
pub open spec fn min_nodes(h: nat) -> nat
    decreases h,
{
    if h == 0 {
        0
    } else if h == 1 {
        1
    } else {
        1 + min_nodes((h - 1) as nat) + min_nodes((h - 2) as nat)
    }
}

impl<K> Shape<K> {
    /// The height on record at the root; 0 for the empty tree.
    pub open spec fn ht(self) -> nat {
        match self {
            Shape::Nil => 0,
            Shape::Fork { ht, .. } => ht,
        }
    }

    /// The keys in the tree.
    pub open spec fn keys(self) -> Set<K>
        decreases self,
    {
        match self {
            Shape::Nil => Set::empty(),
            Shape::Fork { left, key, right, .. } => left.keys().union(right.keys()).insert(key),
        }
    }

    /// The number of nodes.
    pub open spec fn size(self) -> nat
        decreases self,
    {
        match self {
            Shape::Nil => 0,
            Shape::Fork { left, right, .. } => 1 + left.size() + right.size(),
        }
    }

    /// The number of nodes on the longest path from the root down.
    pub open spec fn height(self) -> nat
        decreases self,
    {
        match self {
            Shape::Nil => 0,
            Shape::Fork { left, right, .. } => 1 + max_nat(left.height(), right.height()),
        }
    }
}

impl<K: Ord + Clone> Shape<K> {
    /// The search-tree order: at every node the keys to the left sort before
    /// its key and the keys to the right after it.
    pub open spec fn ordered(self) -> bool
        decreases self,
    {
        match self {
            Shape::Nil => true,
            Shape::Fork { left, key, right, .. } => {
                &&& left.ordered()
                &&& right.ordered()
                &&& forall|y: K| #[trigger] left.keys().contains(y) ==> lt(y, key)
                &&& forall|y: K| #[trigger] right.keys().contains(y) ==> lt(key, y)
            },
        }
    }

    /// The AVL condition: at every node the recorded height is one more than
    /// the larger of the subtrees' recorded heights, and those two differ by
    /// at most one.
    pub open spec fn avl(self) -> bool
        decreases self,
    {
        match self {
            Shape::Nil => true,
            Shape::Fork { left, ht, right, .. } => {
                &&& left.avl()
                &&& right.avl()
                &&& bal_ok(ht, left.ht(), right.ht())
            },
        }
    }

    /// The smallest key: the one reached by going left from the root as far
    /// as possible.
    pub open spec fn min_key(self) -> Option<K>
        decreases self,
    {
        match self {
            Shape::Nil => None,
            Shape::Fork { left, key, .. } => if *left is Nil {
                Some(key)
            } else {
                left.min_key()
            },
        }
    }

    /// The largest key: the one reached by going right from the root as far
    /// as possible.
    pub open spec fn max_key(self) -> Option<K>
        decreases self,
    {
        match self {
            Shape::Nil => None,
            Shape::Fork { key, right, .. } => if *right is Nil {
                Some(key)
            } else {
                right.max_key()
            },
        }
    }

    /// The subtree whose root holds `x`, found by searching for `x`.
    pub open spec fn at(self, x: K) -> Shape<K>
        decreases self,
    {
        match self {
            Shape::Nil => Shape::Nil,
            Shape::Fork { left, key, right, .. } => if x == key {
                self
            } else if lt(x, key) {
                left.at(x)
            } else {
                right.at(x)
            },
        }
    }

    /// The key of the node directly above the node that holds `x`, on the
    /// search path for `x`; nothing if `x` is at the root or absent.
    pub open spec fn parent_key(self, x: K) -> Option<K>
        decreases self,
    {
        match self {
            Shape::Nil => None,
            Shape::Fork { left, key, right, .. } => if x == key {
                None
            } else {
                let child = if lt(x, key) {
                    *left
                } else {
                    *right
                };
                match child {
                    Shape::Nil => None,
                    Shape::Fork { key: below, .. } => if below == x {
                        Some(key)
                    } else {
                        child.parent_key(x)
                    },
                }
            },
        }
    }

    /// The tree with the subtree whose root holds `x` replaced by `sub`.
    pub open spec fn subst(self, x: K, sub: Shape<K>) -> Shape<K>
        decreases self,
    {
        match self {
            Shape::Nil => Shape::Nil,
            Shape::Fork { left, key, ht, right } => if x == key {
                sub
            } else if lt(x, key) {
                Shape::Fork { left: Box::new(left.subst(x, sub)), key, ht, right }
            } else {
                Shape::Fork { left, key, ht, right: Box::new(right.subst(x, sub)) }
            },
        }
    }

    /// The state of a tree after one node was taken out below the search path
    /// for `g` and before the path has been rebalanced: off the path every
    /// subtree is balanced, and on it the recorded heights are still those
    /// from before, so at one place a subtree may be one lower than recorded.
    pub open spec fn almost(self, g: K) -> bool
        decreases self,
    {
        match self {
            Shape::Nil => true,
            Shape::Fork { left, key, ht, right } => if g == key {
                &&& left.avl()
                &&& right.avl()
                &&& (bal_ok(ht, left.ht(), right.ht()) || bal_ok(ht, left.ht() + 1, right.ht())
                    || bal_ok(ht, left.ht(), right.ht() + 1))
            } else if lt(g, key) {
                &&& right.avl()
                &&& ((left.almost(g) && bal_ok(ht, left.ht(), right.ht())) || (left.avl()
                    && bal_ok(ht, left.ht() + 1, right.ht())))
            } else {
                &&& left.avl()
                &&& ((right.almost(g) && bal_ok(ht, left.ht(), right.ht())) || (right.avl()
                    && bal_ok(ht, left.ht(), right.ht() + 1)))
            },
        }
    }
}

/// Following `link` in the arena `a` leads to exactly the tree `t`: every node
/// of `t` is an occupied slot that holds its key and recorded height, and
/// whose links lead to its two subtrees.
pub open spec fn linked<K>(a: Seq<Node<K>>, link: Option<FreeListIndex>, t: Shape<K>) -> bool
    decreases t,
{
    match t {
        Shape::Nil => link.is_none(),
        Shape::Fork { left, key, ht, right } => {
            &&& link.is_some()
            &&& link.unwrap().0 < a.len()
            &&& a[link.unwrap().0 as int].key == key
            &&& a[link.unwrap().0 as int].ht == ht
            &&& linked(a, a[link.unwrap().0 as int].lft, *left)
            &&& linked(a, a[link.unwrap().0 as int].rgt, *right)
        },
    }
}

/// No two slots of the arena hold the same key.
pub open spec fn distinct_keys<K>(a: Seq<Node<K>>) -> bool {
    forall|i: int, j: int| 0 <= i < a.len() && 0 <= j < a.len() && i != j ==> a[i].key != a[j].key
}

/// Every slot of the arena holds a key of `t`.
pub open spec fn covered<K>(a: Seq<Node<K>>, t: Shape<K>) -> bool {
    forall|i: int| 0 <= i < a.len() ==> t.keys().contains(#[trigger] a[i].key)
}

/// The node with key `key` above `left` and `right`, its height computed from
/// theirs.
pub open spec fn fork<K>(left: Shape<K>, key: K, right: Shape<K>) -> Shape<K> {
    Shape::Fork {
        left: Box::new(left),
        key,
        ht: 1 + max_nat(left.ht(), right.ht()),
        right: Box::new(right),
    }
}

/// `t` after a right rotation at its root: the left child comes up, the root
/// goes down to the right, and the child's right subtree changes sides.
pub open spec fn rot_right<K>(t: Shape<K>) -> Shape<K> {
    match t {
        Shape::Fork { left, key, right, .. } => match *left {
            Shape::Fork { left: ll, key: lkey, right: lr, .. } => fork(
                *ll,
                lkey,
                fork(*lr, key, *right),
            ),
            Shape::Nil => t,
        },
        Shape::Nil => t,
    }
}

/// `t` after a left rotation at its root: the right child comes up, the root
/// goes down to the left, and the child's left subtree changes sides.
pub open spec fn rot_left<K>(t: Shape<K>) -> Shape<K> {
    match t {
        Shape::Fork { left, key, right, .. } => match *right {
            Shape::Fork { left: rl, key: rkey, right: rr, .. } => fork(
                fork(*left, key, *rl),
                rkey,
                *rr,
            ),
            Shape::Nil => t,
        },
        Shape::Nil => t,
    }
}

/// What rebalancing makes of the node `t`, whose recorded height is up to
/// date. Where the left subtree is higher than the right by more than one,
/// the node is rotated to the right, after its left child was rotated to the
/// left if that child is higher on its right; likewise to the other side.
/// Otherwise `t` stays as it is.
pub open spec fn rebalanced<K>(t: Shape<K>) -> Shape<K> {
    match t {
        Shape::Nil => t,
        Shape::Fork { left, key, ht, right } => if left.ht() > right.ht() + 1 {
            let inner = if left->left.ht() < left->right.ht() {
                rot_left(*left)
            } else {
                *left
            };
            rot_right(Shape::Fork { left: Box::new(inner), key, ht, right })
        } else if right.ht() > left.ht() + 1 {
            let inner = if right->left.ht() > right->right.ht() {
                rot_right(*right)
            } else {
                *right
            };
            rot_left(Shape::Fork { left, key, ht, right: Box::new(inner) })
        } else {
            t
        },
    }
}

impl<K: Ord + Clone> Shape<K> {
    /// The tree after `key` was inserted: a new leaf where the search for
    /// `key` ends, and every node on the way back up rebalanced. A tree that
    /// has `key` stays as it is.
    pub open spec fn grown(self, key: K) -> Shape<K>
        decreases self,
    {
        match self {
            Shape::Nil => fork(Shape::Nil, key, Shape::Nil),
            Shape::Fork { left, key: here, right, .. } => if key == here {
                self
            } else if lt(key, here) {
                rebalanced(fork(left.grown(key), here, *right))
            } else {
                rebalanced(fork(*left, here, right.grown(key)))
            },
        }
    }

    /// The tree after the search path for `g` was walked back up from its
    /// end, the height of every node on it recomputed and the node
    /// rebalanced.
    pub open spec fn mended(self, g: K) -> Shape<K>
        decreases self,
    {
        match self {
            Shape::Nil => Shape::Nil,
            Shape::Fork { left, key, right, .. } => rebalanced(
                if g == key {
                    fork(*left, key, *right)
                } else if lt(g, key) {
                    fork(left.mended(g), key, *right)
                } else {
                    fork(*left, key, right.mended(g))
                },
            ),
        }
    }

    /// The tree without the node of its largest key; the left subtree of
    /// that node takes its place. The heights on record stay as they are.
    pub open spec fn without_max(self) -> Shape<K> {
        match self.max_key() {
            Some(k) => self.subst(k, *self.at(k)->left),
            None => self,
        }
    }

    /// The tree without the node of its smallest key; the right subtree of
    /// that node takes its place. The heights on record stay as they are.
    pub open spec fn without_min(self) -> Shape<K> {
        match self.min_key() {
            Some(k) => self.subst(k, *self.at(k)->right),
            None => self,
        }
    }

    /// The key of the node above the node of the largest key; the largest
    /// key itself where its node is the root.
    pub open spec fn above_max(self) -> K {
        let k = self.max_key().unwrap();
        if self->key == k {
            k
        } else {
            self.parent_key(k).unwrap()
        }
    }

    /// The key of the node above the node of the smallest key; the smallest
    /// key itself where its node is the root.
    pub open spec fn above_min(self) -> K {
        let k = self.min_key().unwrap();
        if self->key == k {
            k
        } else {
            self.parent_key(k).unwrap()
        }
    }

    /// Whether the root has no children.
    pub open spec fn is_leaf(self) -> bool {
        self is Fork && (*self->left) is Nil && (*self->right) is Nil
    }

    /// The key that takes the place of the key at the root when that one is
    /// removed; nothing where the root has no children.
    pub open spec fn substitute(self) -> Option<K> {
        if self is Nil || self.is_leaf() {
            None
        } else if self->left.ht() >= self->right.ht() {
            self->left.max_key()
        } else {
            self->right.min_key()
        }
    }

    /// What the removal of the key at the root makes of the tree, before any
    /// rebalancing. A root without children goes. Any other root stays and
    /// takes over the key of a substitute, whose node is unlinked: the
    /// largest key to its left if the left subtree is on record as at least
    /// as high as the right one, else the smallest key to its right.
    pub open spec fn unlinked(self) -> Shape<K> {
        match self {
            Shape::Nil => Shape::Nil,
            Shape::Fork { left, key, ht, right } => if self.is_leaf() {
                Shape::Nil
            } else if left.ht() >= right.ht() {
                Shape::Fork {
                    left: Box::new(left.without_max()),
                    key: left.max_key().unwrap(),
                    ht,
                    right,
                }
            } else {
                Shape::Fork {
                    left,
                    key: right.min_key().unwrap(),
                    ht,
                    right: Box::new(right.without_min()),
                }
            },
        }
    }

    /// The key whose search path has to be rebalanced after the key at the
    /// root was removed: the removed key if the root had no children, else
    /// the key above the unlinked substitute as the tree is afterwards.
    pub open spec fn mend_from(self) -> K {
        if self.is_leaf() {
            self->key
        } else if self->left.ht() >= self->right.ht() {
            self->left.above_max()
        } else {
            self->right.above_min()
        }
    }

    /// The tree after `x` was removed: the node that holds `x` dealt with as
    /// [`Shape::unlinked`] says, then the path above the unlinked node
    /// rebalanced. A tree that does not have `x` stays as it is.
    pub open spec fn pruned(self, x: K) -> Shape<K> {
        if self.keys().contains(x) {
            self.subst(x, self.at(x).unlinked()).mended(self.at(x).mend_from())
        } else {
            self
        }
    }
}

/// The keys of the arena `a` by slot.
pub open spec fn keys_of<K>(a: Seq<Node<K>>) -> Seq<K> {
    Seq::new(a.len(), |i: int| a[i].key)
}

/// `s` after the item at `i` was taken out and the last item put in its
/// place.
pub open spec fn swap_removed<T>(s: Seq<T>, i: int) -> Seq<T> {
    s.update(i, s.last()).drop_last()
}

/// The keys by slot after `x` was removed from an index with the tree `t`
/// and the keys `s` by slot. The node of `x` takes over the key of its
/// substitute if it has one; then the slot of the unlinked node, which held
/// the substitute or else `x`, is filled from the highest slot.
pub open spec fn slots_without<K: Ord + Clone>(s: Seq<K>, t: Shape<K>, x: K) -> Seq<K> {
    if t.keys().contains(x) {
        match t.at(x).substitute() {
            Some(k) => swap_removed(s.update(s.index_of(x), k), s.index_of(k)),
            None => swap_removed(s, s.index_of(x)),
        }
    } else {
        s
    }
}

} // verus!
