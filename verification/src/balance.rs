//! Heights, balance factors and the rotations that restore balance.

use crate::free_list::FreeListIndex;
use crate::link_lemmas::lemma_frame;
use crate::node::{expect, follow, Node};
use crate::order::{key_laws, lemma_order};
use crate::shape::{fork, linked, max_nat, rebalanced, rot_left, rot_right, Shape};
use crate::shape_lemmas::{lemma_rot_left, lemma_rot_right};
use crate::tree::Tree;
use vstd::prelude::*;

verus! {

/// The height on record at the node that `link` leads to; 0 where it leads
/// nowhere.
pub open spec fn link_ht<K>(a: Seq<Node<K>>, link: Option<FreeListIndex>) -> int {
    match follow(a, link) {
        Some((_, node)) => node.ht as int,
        None => 0,
    }
}

/// The balance factor of `node` in the arena `a`: the height on record to its
/// left less the height on record to its right.
pub open spec fn balance_of<K>(a: Seq<Node<K>>, node: Node<K>) -> int {
    link_ht(a, node.lft) - link_ht(a, node.rgt)
}

/// Arena `b` has the keys of arena `a` in the same slots, and differs from it
/// only in slots whose key is in `keys`.
pub open spec fn same_outside<K>(a: Seq<Node<K>>, b: Seq<Node<K>>, keys: Set<K>) -> bool {
    &&& a.len() == b.len()
    &&& forall|j: int| 0 <= j < a.len() ==> (#[trigger] b[j]).key == a[j].key
    &&& forall|j: int| 0 <= j < a.len() && !keys.contains(a[j].key) ==> #[trigger] b[j] == a[j]
}

impl<K: Ord + Clone> Tree<K> {
    /// Whether `self` has the root link, the model and the namespace of
    /// `other`, and is still marked as changed if `other` was.
    pub(crate) open spec fn rest_as(&self, other: &Self) -> bool {
        &&& self.root == other.root
        &&& self.shape == other.shape
        &&& self.nodes.wf() == other.nodes.wf()
        &&& self.nodes.namespace() == other.nodes.namespace()
        &&& other.nodes.pending() ==> self.nodes.pending()
    }

    /// The height on record at the node that `link` leads to.
    pub(crate) fn height_of(&self, link: Option<FreeListIndex>) -> (h: u32)
        ensures
            h == link_ht(self.nodes@, link),
    {
        match link {
            Some(id) => match self.nodes.get(id) {
                Some(node) => node.ht,
                None => 0,
            },
            None => 0,
        }
    }

    /// Recomputes the height of the node in slot `id` from the heights on
    /// record at its children, and records it.
    pub(crate) fn update_height(&mut self, id: FreeListIndex)
        requires
            id.0 < old(self).nodes@.len(),
            link_ht(old(self).nodes@, old(self).nodes@[id.0 as int].lft) < u32::MAX,
            link_ht(old(self).nodes@, old(self).nodes@[id.0 as int].rgt) < u32::MAX,
        ensures
            final(self).nodes@ == old(self).nodes@.update(
                id.0 as int,
                Node {
                    key: old(self).nodes@[id.0 as int].key,
                    lft: old(self).nodes@[id.0 as int].lft,
                    rgt: old(self).nodes@[id.0 as int].rgt,
                    ht: (1 + max_nat(
                        link_ht(old(self).nodes@, old(self).nodes@[id.0 as int].lft) as nat,
                        link_ht(old(self).nodes@, old(self).nodes@[id.0 as int].rgt) as nat,
                    )) as u32,
                },
            ),
            final(self).rest_as(old(self)),
    {
        let node = expect(self.nodes.get(id));
        let lft = self.height_of(node.lft);
        let rgt = self.height_of(node.rgt);
        let ht = 1 + if lft >= rgt {
            lft
        } else {
            rgt
        };
        self.set_height(id, ht);
    }

    /// The balance factor of `node`: the height of its left subtree less the
    /// height of its right subtree, as recorded at its children.
    pub fn get_balance(&self, node: &Node<K>) -> (b: i64)
        ensures
            b == balance_of(self.arena(), *node),
    {
        let lht = self.height_of(node.lft);
        let rht = self.height_of(node.rgt);
        lht as i64 - rht as i64
    }

    /// Rotates the subtree `t` rooted in slot `id` to the right and returns
    /// the slot of its new root, which was the left child. Only the links and
    /// heights of these two nodes change.
    pub(crate) fn rotate_right(&mut self, id: FreeListIndex, Ghost(t): Ghost<Shape<K>>) -> (r:
        FreeListIndex)
        requires
            key_laws::<K>(),
            linked(old(self).nodes@, Some(id), t),
            t.ordered(),
            (*t->left) is Fork,
            t->left->left.ht() + 2 <= u32::MAX,
            t->left->right.ht() + 2 <= u32::MAX,
            t->right.ht() + 2 <= u32::MAX,
        ensures
            linked(final(self).nodes@, Some(r), rot_right(t)),
            same_outside(old(self).nodes@, final(self).nodes@, t.keys()),
            final(self).rest_as(old(self)),
    {
        let ghost a0 = self.nodes@;
        let ghost l = *t->left;
        let node = expect(self.nodes.get(id));
        proof {
            assert(linked(a0, node.lft, l));
        }
        let left_id = expect(node.lft);
        proof {
            lemma_order::<K>();
            reveal_with_fuel(Shape::ordered, 3);
            reveal_with_fuel(Shape::keys, 3);
            assert(linked(a0, a0[id.0 as int].lft, l));
            assert(linked(a0, a0[id.0 as int].rgt, *t->right));
            assert(linked(a0, a0[left_id.0 as int].lft, *l->left));
            assert(linked(a0, a0[left_id.0 as int].rgt, *l->right));
            assert(l.keys().contains(l->key));
        }
        let left = expect(self.nodes.get(left_id));
        let lft_rgt = left.rgt;
        self.set_left(id, lft_rgt);
        self.set_right(left_id, Some(id));
        proof {
            let a2 = self.nodes@;
            assert forall|j: int|
                0 <= j < a0.len() && l->right.keys().contains(#[trigger] a0[j].key) implies j
                < a2.len() && a2[j] == a0[j] by {
                assert(l.keys().contains(a0[j].key));
            }
            lemma_frame(a0, a2, lft_rgt, *l->right);
            lemma_frame(a0, a2, a0[id.0 as int].rgt, *t->right);
        }
        self.update_height(id);
        proof {
            let a3 = self.nodes@;
            assert forall|j: int|
                0 <= j < a0.len() && l->left.keys().contains(#[trigger] a0[j].key) implies j
                < a3.len() && a3[j] == a0[j] by {
                assert(l.keys().contains(a0[j].key));
            }
            lemma_frame(a0, a3, a0[left_id.0 as int].lft, *l->left);
        }
        self.update_height(left_id);
        proof {
            let a4 = self.nodes@;
            let down = fork(*l->right, t->key, *t->right);
            assert forall|j: int|
                0 <= j < a0.len() && l->left.keys().contains(#[trigger] a0[j].key) implies j
                < a4.len() && a4[j] == a0[j] by {
                assert(l.keys().contains(a0[j].key));
            }
            lemma_frame(a0, a4, a0[left_id.0 as int].lft, *l->left);
            assert forall|j: int|
                0 <= j < a0.len() && l->right.keys().contains(#[trigger] a0[j].key) implies j
                < a4.len() && a4[j] == a0[j] by {
                assert(l.keys().contains(a0[j].key));
            }
            lemma_frame(a0, a4, lft_rgt, *l->right);
            lemma_frame(a0, a4, a0[id.0 as int].rgt, *t->right);
            assert(linked(a4, Some(id), down));
            assert(rot_right(t) == fork(*l->left, l->key, down));
            assert(linked(a4, Some(left_id), rot_right(t)));
        }
        left_id
    }

    /// Rotates the subtree `t` rooted in slot `id` to the left and returns
    /// the slot of its new root, which was the right child. Only the links
    /// and heights of these two nodes change.
    pub(crate) fn rotate_left(&mut self, id: FreeListIndex, Ghost(t): Ghost<Shape<K>>) -> (r:
        FreeListIndex)
        requires
            key_laws::<K>(),
            linked(old(self).nodes@, Some(id), t),
            t.ordered(),
            (*t->right) is Fork,
            t->right->left.ht() + 2 <= u32::MAX,
            t->right->right.ht() + 2 <= u32::MAX,
            t->left.ht() + 2 <= u32::MAX,
        ensures
            linked(final(self).nodes@, Some(r), rot_left(t)),
            same_outside(old(self).nodes@, final(self).nodes@, t.keys()),
            final(self).rest_as(old(self)),
    {
        let ghost a0 = self.nodes@;
        let ghost r = *t->right;
        let node = expect(self.nodes.get(id));
        proof {
            assert(linked(a0, node.rgt, r));
        }
        let right_id = expect(node.rgt);
        proof {
            lemma_order::<K>();
            reveal_with_fuel(Shape::ordered, 3);
            reveal_with_fuel(Shape::keys, 3);
            assert(linked(a0, a0[id.0 as int].lft, *t->left));
            assert(linked(a0, a0[id.0 as int].rgt, r));
            assert(linked(a0, a0[right_id.0 as int].lft, *r->left));
            assert(linked(a0, a0[right_id.0 as int].rgt, *r->right));
            assert(r.keys().contains(r->key));
        }
        let right = expect(self.nodes.get(right_id));
        let rgt_lft = right.lft;
        self.set_right(id, rgt_lft);
        self.set_left(right_id, Some(id));
        proof {
            let a2 = self.nodes@;
            assert forall|j: int|
                0 <= j < a0.len() && r->left.keys().contains(#[trigger] a0[j].key) implies j
                < a2.len() && a2[j] == a0[j] by {
                assert(r.keys().contains(a0[j].key));
            }
            lemma_frame(a0, a2, rgt_lft, *r->left);
            lemma_frame(a0, a2, a0[id.0 as int].lft, *t->left);
        }
        self.update_height(id);
        proof {
            let a3 = self.nodes@;
            assert forall|j: int|
                0 <= j < a0.len() && r->right.keys().contains(#[trigger] a0[j].key) implies j
                < a3.len() && a3[j] == a0[j] by {
                assert(r.keys().contains(a0[j].key));
            }
            lemma_frame(a0, a3, a0[right_id.0 as int].rgt, *r->right);
        }
        self.update_height(right_id);
        proof {
            let a4 = self.nodes@;
            let down = fork(*t->left, t->key, *r->left);
            assert forall|j: int|
                0 <= j < a0.len() && r->right.keys().contains(#[trigger] a0[j].key) implies j
                < a4.len() && a4[j] == a0[j] by {
                assert(r.keys().contains(a0[j].key));
            }
            lemma_frame(a0, a4, a0[right_id.0 as int].rgt, *r->right);
            assert forall|j: int|
                0 <= j < a0.len() && r->left.keys().contains(#[trigger] a0[j].key) implies j
                < a4.len() && a4[j] == a0[j] by {
                assert(r.keys().contains(a0[j].key));
            }
            lemma_frame(a0, a4, rgt_lft, *r->left);
            lemma_frame(a0, a4, a0[id.0 as int].lft, *t->left);
            assert(linked(a4, Some(id), down));
            assert(rot_left(t) == fork(down, r->key, *r->right));
            assert(linked(a4, Some(right_id), rot_left(t)));
        }
        right_id
    }

    /// Restores balance at the node in slot `id`, whose two subtrees are
    /// balanced and differ in height by at most two: rotates if they differ
    /// by two, first the taller child if that one leans the other way.
    /// Returns the slot of the root of the subtree afterwards, and its model.
    #[verifier::rlimit(20)]
    pub(crate) fn enforce_balance(&mut self, id: FreeListIndex, Ghost(t): Ghost<Shape<K>>) -> (r: (
        FreeListIndex,
        Ghost<Shape<K>>,
    ))
        requires
            key_laws::<K>(),
            linked(old(self).nodes@, Some(id), t),
            t.ordered(),
            t->left.avl(),
            t->right.avl(),
            t.ht() == 1 + max_nat(t->left.ht(), t->right.ht()),
            t->left.ht() <= t->right.ht() + 2,
            t->right.ht() <= t->left.ht() + 2,
        ensures
            linked(final(self).nodes@, Some(r.0), r.1@),
            r.1@ == rebalanced(t),
            r.1@.avl(),
            r.1@.ordered(),
            r.1@.keys() == t.keys(),
            r.1@.size() == t.size(),
            r.1@.ht() <= t.ht() <= r.1@.ht() + 1,
            t.avl() ==> r.1@ == t && r.0 == id && final(self).nodes@ == old(self).nodes@,
            same_outside(old(self).nodes@, final(self).nodes@, t.keys()),
            final(self).rest_as(old(self)),
    {
        let ghost a0 = self.nodes@;
        let ghost l = *t->left;
        let ghost r = *t->right;
        proof {
            lemma_order::<K>();
            reveal_with_fuel(Shape::avl, 4);
            reveal_with_fuel(Shape::ordered, 3);
            reveal_with_fuel(Shape::keys, 3);
            assert(linked(a0, a0[id.0 as int].lft, l));
            assert(linked(a0, a0[id.0 as int].rgt, r));
        }
        let node = expect(self.nodes.get(id));
        let balance = self.get_balance(node);
        if balance > 1 {
            let left_id = expect(node.lft);
            let left = expect(self.nodes.get(left_id));
            proof {
                assert(linked(a0, a0[left_id.0 as int].lft, *l->left));
                assert(linked(a0, a0[left_id.0 as int].rgt, *l->right));
            }
            let ghost mut t1 = t;
            if self.get_balance(left) < 0 {
                proof {
                    let lr = *l->right;
                    assert(linked(a0, a0[left_id.0 as int].rgt, lr));
                    assert(lr is Fork);
                    lemma_rot_left(l);
                }
                let rotated = self.rotate_left(left_id, Ghost(l));
                let ghost a1 = self.nodes@;
                self.set_left(id, Some(rotated));
                proof {
                    let a2 = self.nodes@;
                    t1 = Shape::Fork {
                        left: Box::new(rot_left(l)),
                        key: t->key,
                        ht: t->ht,
                        right: Box::new(r),
                    };
                    assert(l.keys().contains(l->key));
                    lemma_frame(a1, a2, Some(rotated), rot_left(l));
                    assert forall|j: int|
                        0 <= j < a0.len() && r.keys().contains(#[trigger] a0[j].key) implies j
                        < a2.len() && a2[j] == a0[j] by {
                        assert(!l.keys().contains(a0[j].key));
                    }
                    lemma_frame(a0, a2, a0[id.0 as int].rgt, r);
                    assert(linked(a2, Some(id), t1));
                    assert(t1.keys() =~= t.keys());
                    assert(t1.ordered());
                    assert(same_outside(a0, a2, t.keys()));
                }
            }
            proof {
                lemma_rot_right(t1);
            }
            let top = self.rotate_right(id, Ghost(t1));
            proof {
                assert(rot_right(t1).keys() =~= t.keys());
                assert(same_outside(a0, self.nodes@, t.keys()));
            }
            (top, Ghost(rot_right(t1)))
        } else if balance < -1 {
            let right_id = expect(node.rgt);
            let right = expect(self.nodes.get(right_id));
            proof {
                assert(linked(a0, a0[right_id.0 as int].lft, *r->left));
                assert(linked(a0, a0[right_id.0 as int].rgt, *r->right));
            }
            let ghost mut t1 = t;
            if self.get_balance(right) > 0 {
                proof {
                    let rl = *r->left;
                    assert(linked(a0, a0[right_id.0 as int].lft, rl));
                    assert(rl is Fork);
                    lemma_rot_right(r);
                }
                let rotated = self.rotate_right(right_id, Ghost(r));
                let ghost a1 = self.nodes@;
                self.set_right(id, Some(rotated));
                proof {
                    let a2 = self.nodes@;
                    t1 = Shape::Fork {
                        left: Box::new(l),
                        key: t->key,
                        ht: t->ht,
                        right: Box::new(rot_right(r)),
                    };
                    assert(r.keys().contains(r->key));
                    lemma_frame(a1, a2, Some(rotated), rot_right(r));
                    assert forall|j: int|
                        0 <= j < a0.len() && l.keys().contains(#[trigger] a0[j].key) implies j
                        < a2.len() && a2[j] == a0[j] by {
                        assert(!r.keys().contains(a0[j].key));
                    }
                    lemma_frame(a0, a2, a0[id.0 as int].lft, l);
                    assert(linked(a2, Some(id), t1));
                    assert(t1.keys() =~= t.keys());
                    assert(t1.ordered());
                    assert(same_outside(a0, a2, t.keys()));
                }
            }
            proof {
                lemma_rot_left(t1);
            }
            let top = self.rotate_left(id, Ghost(t1));
            proof {
                assert(rot_left(t1).keys() =~= t.keys());
                assert(same_outside(a0, self.nodes@, t.keys()));
            }
            (top, Ghost(rot_left(t1)))
        } else {
            (id, Ghost(t))
        }
    }
}

} // verus!
