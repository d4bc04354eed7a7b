//! Removal from the index: unlinking a node, giving its slot back to the
//! arena, and rebalancing the path above it.

use crate::balance::same_outside;
use crate::free_list::FreeListIndex;
use crate::link_lemmas::{
    lemma_at_linked, lemma_frame, lemma_relocate, lemma_slot_of_key, lemma_subst_linked, moved,
    relinked,
};
use crate::node::{expect, Node};
use crate::order::{key_clone, key_eq, key_laws, key_lt, lemma_order, lt};
use crate::shape::{
    covered, distinct_keys, keys_of, linked, slots_without, swap_removed, Shape,
};
use crate::shape_lemmas::{
    lemma_at, lemma_at_subst, lemma_avl_almost, lemma_avl_height, lemma_cut, lemma_max_key,
    lemma_min_key, lemma_parent_child, lemma_parent_key, lemma_subst_almost, lemma_subst_child,
    lemma_subst_keys, lemma_subst_twice,
};
use crate::tree::Tree;
use vstd::prelude::*;

verus! {

/// Whether `link` leads to slot `slot`.
pub(crate) fn leads_to(link: Option<FreeListIndex>, slot: u32) -> (b: bool)
    ensures
        b == (link == Some(FreeListIndex(slot))),
{
    match link {
        Some(id) => id.0 == slot,
        None => false,
    }
}

impl<K: Ord + Clone> Tree<K> {
    /// Everything the invariant asks but balance: the state between taking a
    /// node out and rebalancing.
    pub(crate) open spec fn sound(&self) -> bool {
        &&& key_laws::<K>()
        &&& self.nodes.wf()
        &&& linked(self.nodes@, self.root, self.shape@)
        &&& self.shape@.ordered()
        &&& distinct_keys(self.nodes@)
        &&& covered(self.nodes@, self.shape@)
        &&& self.shape@.size() == self.nodes@.len()
    }

    /// The state after the node in slot `s` was unlinked and before its slot
    /// was given back: the tree no longer has its key, every other slot is
    /// still a node of the tree.
    pub(crate) open spec fn detached(&self, s: int) -> bool {
        &&& key_laws::<K>()
        &&& self.nodes.wf()
        &&& linked(self.nodes@, self.root, self.shape@)
        &&& self.shape@.ordered()
        &&& distinct_keys(self.nodes@)
        &&& 0 <= s < self.nodes@.len()
        &&& !self.shape@.keys().contains(self.nodes@[s].key)
        &&& forall|j: int|
            0 <= j < self.nodes@.len() && j != s ==> self.shape@.keys().contains(
                #[trigger] self.nodes@[j].key,
            )
        &&& self.shape@.size() + 1 == self.nodes@.len()
    }

    /// Walks from the node in slot `at` down the search path for `key` and
    /// back up, recomputing the height of every node on the path and
    /// rotating where the balance is off. Returns the slot of the root of the
    /// subtree afterwards, and its model.
    #[verifier::rlimit(20)]
    pub(crate) fn check_balance(&mut self, at: FreeListIndex, key: &K, Ghost(t): Ghost<Shape<K>>) -> (r:
        (FreeListIndex, Ghost<Shape<K>>))
        requires
            key_laws::<K>(),
            linked(old(self).nodes@, Some(at), t),
            t.ordered(),
            t.almost(*key),
            t.size() <= u32::MAX,
        ensures
            final(self).rest_as(old(self)),
            linked(final(self).nodes@, Some(r.0), r.1@),
            r.1@ == t.mended(*key),
            r.1@.avl(),
            r.1@.ordered(),
            r.1@.keys() == t.keys(),
            r.1@.size() == t.size(),
            r.1@.ht() <= t.ht() <= r.1@.ht() + 1,
            t.avl() ==> r.1@.ht() == t.ht(),
            same_outside(old(self).nodes@, final(self).nodes@, t.keys()),
        decreases t,
    {
        let ghost a0 = self.nodes@;
        let ghost l = *t->left;
        let ghost r = *t->right;
        let ghost x = t->key;
        proof {
            lemma_order::<K>();
            assert(linked(a0, a0[at.0 as int].lft, l));
            assert(linked(a0, a0[at.0 as int].rgt, r));
        }
        let node = expect(self.nodes.get(at));
        let lft = node.lft;
        let rgt = node.rgt;
        let ghost mut stale = t;
        if !key_eq(&node.key, key) {
            if key_lt(key, &node.key) {
                if let Some(below) = lft {
                    proof {
                        if l.avl() {
                            lemma_avl_almost(l, *key);
                        }
                    }
                    let (id, Ghost(fixed)) = self.check_balance(below, key, Ghost(l));
                    let ghost a1 = self.nodes@;
                    self.set_left(at, Some(id));
                    proof {
                        let a2 = self.nodes@;
                        stale = Shape::Fork {
                            left: Box::new(fixed),
                            key: x,
                            ht: t->ht,
                            right: Box::new(r),
                        };
                        assert(a1[at.0 as int] == a0[at.0 as int]);
                        assert forall|j: int|
                            0 <= j < a1.len() && fixed.keys().contains(
                                #[trigger] a1[j].key,
                            ) implies j < a2.len() && a2[j] == a1[j] by {}
                        lemma_frame(a1, a2, Some(id), fixed);
                        assert forall|j: int|
                            0 <= j < a0.len() && r.keys().contains(#[trigger] a0[j].key) implies j
                            < a2.len() && a2[j] == a0[j] by {
                            assert(!l.keys().contains(a0[j].key));
                        }
                        lemma_frame(a0, a2, rgt, r);
                        assert(linked(a2, Some(at), stale));
                    }
                }
            } else if let Some(below) = rgt {
                proof {
                    if r.avl() {
                        lemma_avl_almost(r, *key);
                    }
                }
                let (id, Ghost(fixed)) = self.check_balance(below, key, Ghost(r));
                let ghost a1 = self.nodes@;
                self.set_right(at, Some(id));
                proof {
                    let a2 = self.nodes@;
                    stale = Shape::Fork {
                        left: Box::new(l),
                        key: x,
                        ht: t->ht,
                        right: Box::new(fixed),
                    };
                    assert(a1[at.0 as int] == a0[at.0 as int]);
                    assert forall|j: int|
                        0 <= j < a1.len() && fixed.keys().contains(#[trigger] a1[j].key) implies j
                        < a2.len() && a2[j] == a1[j] by {}
                    lemma_frame(a1, a2, Some(id), fixed);
                    assert forall|j: int|
                        0 <= j < a0.len() && l.keys().contains(#[trigger] a0[j].key) implies j
                        < a2.len() && a2[j] == a0[j] by {
                        assert(!r.keys().contains(a0[j].key));
                    }
                    lemma_frame(a0, a2, lft, l);
                    assert(linked(a2, Some(at), stale));
                }
            }
        }
        let ghost a2 = self.nodes@;
        proof {
            assert(linked(a2, Some(at), stale));
            assert(stale.keys() =~= t.keys());
            assert(stale->left.avl() && stale->right.avl());
            lemma_avl_height(*stale->left);
            lemma_avl_height(*stale->right);
            assert(linked(a2, a2[at.0 as int].lft, *stale->left));
            assert(linked(a2, a2[at.0 as int].rgt, *stale->right));
        }
        self.update_height(at);
        let ghost a3 = self.nodes@;
        let ghost fresh = Shape::Fork {
            left: stale->left,
            key: x,
            ht: a3[at.0 as int].ht as nat,
            right: stale->right,
        };
        proof {
            assert forall|j: int|
                0 <= j < a2.len() && stale->left.keys().contains(#[trigger] a2[j].key) implies j
                < a3.len() && a3[j] == a2[j] by {}
            lemma_frame(a2, a3, a2[at.0 as int].lft, *stale->left);
            assert forall|j: int|
                0 <= j < a2.len() && stale->right.keys().contains(#[trigger] a2[j].key) implies j
                < a3.len() && a3[j] == a2[j] by {}
            lemma_frame(a2, a3, a2[at.0 as int].rgt, *stale->right);
            assert(linked(a3, Some(at), fresh));
            assert(fresh.keys() =~= t.keys());
            assert(fresh.ordered());
        }
        let (top, Ghost(done)) = self.enforce_balance(at, Ghost(fresh));
        proof {
            let a4 = self.nodes@;
            assert forall|j: int| 0 <= j < a0.len() implies (#[trigger] a4[j]).key
                == a0[j].key by {
                assert(a3[j].key == a0[j].key);
            }
            assert forall|j: int|
                0 <= j < a0.len() && !t.keys().contains(a0[j].key) implies #[trigger] a4[j]
                == a0[j] by {
                assert(a3[j] == a0[j]);
            }
        }
        (top, Ghost(done))
    }

    /// Gives the slot `id` of an unlinked node back to the arena and returns
    /// the node. The arena fills the slot with the node of its highest slot;
    /// the link that led to that node, found by searching for its key, is
    /// redirected to `id`.
    pub(crate) fn reclaim(&mut self, id: FreeListIndex) -> (node: Node<K>)
        requires
            old(self).detached(id.0 as int),
        ensures
            final(self).sound(),
            final(self).shape == old(self).shape,
            final(self).nodes.namespace() == old(self).nodes.namespace(),
            final(self).nodes.pending(),
            node == old(self).nodes@[id.0 as int],
            final(self).nodes@.len() == old(self).nodes@.len() - 1,
            final(self).slot_keys() == swap_removed(old(self).slot_keys(), id.0 as int),
            forall|j: int|
                0 <= j < final(self).nodes@.len() && j != id.0 ==> (#[trigger] final(self).nodes@[j]).key == old(self).nodes@[j].key,
            id.0 < final(self).nodes@.len() ==> final(self).nodes@[id.0 as int].key == old(self).nodes@[old(self).nodes@.len() - 1].key,
    {
        let ghost a0 = self.nodes@;
        let ghost t = self.shape@;
        let ghost root0 = self.root;
        let ghost s = id.0 as int;
        let ghost mut q: int = -1;
        let last = self.nodes.len() - 1;
        proof {
            lemma_order::<K>();
        }
        if id.0 != last {
            let last_id = FreeListIndex(last);
            proof {
                assert(t.keys().contains(a0[last as int].key));
                assert(t is Fork);
            }
            let root = expect(self.root);
            let found = self.lookup_at(root, &expect(self.nodes.get(last_id)).key, Ghost(t));
            let (n, p) = expect(found);
            proof {
                assert(n.0 == last);
                assert(a0[root.0 as int].key == t->key);
                if t->key != a0[last as int].key {
                    lemma_parent_key(t, a0[last as int].key);
                    assert(p.0 != n.0);
                    assert(root.0 != last);
                }
            }
            if n.0 == p.0 {
                self.root = Some(id);
            } else {
                let above = expect(self.nodes.get(p));
                let lft = above.lft;
                let rgt = above.rgt;
                if leads_to(lft, last) {
                    self.set_left(p, Some(id));
                }
                if leads_to(rgt, last) {
                    self.set_right(p, Some(id));
                }
                proof {
                    q = p.0 as int;
                    assert(t.keys().contains(a0[q].key));
                    assert(self.nodes@[q] == relinked(a0[q], last as int, s));
                }
            }
        }
        let ghost a1 = self.nodes@;
        let node = expect(self.nodes.remove(id));
        proof {
            let b = self.nodes@;
            if s != last {
                assert(b[s] == a0[last as int]);
                assert forall|j: int| 0 <= j < a0.len() - 1 && j != s && j != q implies #[trigger] b[j]
                    == a0[j] by {
                    assert(a1[j] == a0[j]);
                }
                lemma_relocate(a0, b, root0, t, s, q);
                assert(self.root == moved(root0, last as int, s));
            } else {
                assert forall|j: int|
                    0 <= j < a0.len() && t.keys().contains(#[trigger] a0[j].key) implies j
                    < b.len() && b[j] == a0[j] by {}
                lemma_frame(a0, b, root0, t);
            }
            assert forall|j: int| 0 <= j < b.len() && j != s implies (#[trigger] b[j]).key
                == a0[j].key by {
                assert(a1[j].key == a0[j].key);
            }
            assert(distinct_keys(b)) by {
                assert forall|i: int, j: int|
                    0 <= i < b.len() && 0 <= j < b.len() && i != j implies b[i].key
                    != b[j].key by {
                    let i0 = if i == s {
                        last as int
                    } else {
                        i
                    };
                    let j0 = if j == s {
                        last as int
                    } else {
                        j
                    };
                    assert(b[i].key == a0[i0].key);
                    assert(b[j].key == a0[j0].key);
                }
            }
            assert(covered(b, t)) by {
                assert forall|i: int| 0 <= i < b.len() implies t.keys().contains(
                    #[trigger] b[i].key,
                ) by {
                    let i0 = if i == s {
                        last as int
                    } else {
                        i
                    };
                    assert(b[i].key == a0[i0].key);
                    assert(t.keys().contains(a0[i0].key));
                }
            }
            assert(self.slot_keys() =~= swap_removed(old(self).slot_keys(), s));
        }
        node
    }

    /// Unlinks the node in slot `r_id`, which holds `key` and has no
    /// children, from the node above it in slot `p_id`.
    pub(crate) fn cut_leaf(&mut self, r_id: FreeListIndex, p_id: FreeListIndex, key: &K)
        requires
            old(self).wf(),
            r_id.0 < old(self).nodes@.len(),
            p_id.0 < old(self).nodes@.len(),
            old(self).nodes@[r_id.0 as int].key == *key,
            old(self).nodes@[r_id.0 as int].lft.is_none(),
            old(self).nodes@[r_id.0 as int].rgt.is_none(),
            old(self).shape@->key != *key,
            Some(old(self).nodes@[p_id.0 as int].key) == old(self).shape@.parent_key(*key),
            if lt(*key, old(self).nodes@[p_id.0 as int].key) {
                old(self).nodes@[p_id.0 as int].lft == Some(r_id)
            } else {
                old(self).nodes@[p_id.0 as int].rgt == Some(r_id)
            },
        ensures
            final(self).detached(r_id.0 as int),
            final(self).shape@ == old(self).shape@.subst(*key, Shape::Nil),
            final(self).slot_keys() == old(self).slot_keys(),
            final(self).shape@.keys() == old(self).shape@.keys().remove(*key),
            final(self).shape@.almost(*key),
            final(self).nodes.namespace() == old(self).nodes.namespace(),
            final(self).nodes@.len() == old(self).nodes@.len(),
    {
        let ghost a0 = self.nodes@;
        let ghost t = self.shape@;
        let ghost x = *key;
        let ghost r = r_id.0 as int;
        let ghost p = p_id.0 as int;
        let ghost pk = a0[p].key;
        let ghost above = t.at(pk);
        proof {
            lemma_order::<K>();
            assert(t.keys().contains(a0[r].key));
            lemma_parent_child(t, x);
            lemma_at(t, pk);
            lemma_at(t, x);
            lemma_at_linked(a0, self.root, t, p);
            lemma_at_linked(a0, self.root, t, r);
            assert(linked(a0, a0[p].lft, *above->left));
            assert(linked(a0, a0[p].rgt, *above->right));
            assert(linked(a0, a0[r].lft, *t.at(x)->left));
            assert(linked(a0, a0[r].rgt, *t.at(x)->right));
            reveal_with_fuel(Shape::keys, 2);
            reveal_with_fuel(Shape::size, 2);
            reveal_with_fuel(Shape::avl, 2);
            assert(t.at(x).keys() =~= set![x]);
            assert(t.at(x).size() == 1);
            assert(t.at(x).ht() == 1);
        }
        let go_right = key_lt(&expect(self.nodes.get(p_id)).key, key);
        if go_right {
            self.set_right(p_id, None);
        } else {
            self.set_left(p_id, None);
        }
        let ghost sub = if lt(pk, x) {
            Shape::Fork { left: above->left, key: pk, ht: above->ht, right: Box::new(Shape::Nil) }
        } else {
            Shape::Fork { left: Box::new(Shape::Nil), key: pk, ht: above->ht, right: above->right }
        };
        self.shape = Ghost(t.subst(pk, sub));
        proof {
            let a1 = self.nodes@;
            if lt(pk, x) {
                assert forall|j: int|
                    0 <= j < a0.len() && above->left.keys().contains(#[trigger] a0[j].key) implies j
                    < a1.len() && a1[j] == a0[j] by {}
                lemma_frame(a0, a1, a0[p].lft, *above->left);
            } else {
                assert forall|j: int|
                    0 <= j < a0.len() && above->right.keys().contains(
                        #[trigger] a0[j].key,
                    ) implies j < a1.len() && a1[j] == a0[j] by {}
                lemma_frame(a0, a1, a0[p].rgt, *above->right);
            }
            assert(linked(a1, None, Shape::<K>::Nil));
            assert(linked(a1, a1[p].lft, *sub->left));
            assert(linked(a1, a1[p].rgt, *sub->right));
            assert(linked(a1, Some(p_id), sub));
            assert(above.keys().contains(pk));
            lemma_subst_child(t, x, Shape::Nil);
            lemma_subst_linked(a0, a1, self.root, t, p, sub);
            assert(sub.keys() =~= above.keys().remove(x));
            assert(sub.ordered());
            lemma_cut(t, pk, sub, x);
            lemma_subst_almost(t, pk, sub, x);
            assert(self.slot_keys() =~= old(self).slot_keys());
            assert(self.shape@.keys() == t.keys().remove(x));
            assert forall|j: int| 0 <= j < a1.len() && j != r implies self.shape@.keys().contains(
                #[trigger] a1[j].key,
            ) by {
                assert(a1[j].key == a0[j].key);
                assert(t.keys().contains(a0[j].key));
            }
            assert(distinct_keys(a1)) by {
                assert forall|i: int, j: int|
                    0 <= i < a1.len() && 0 <= j < a1.len() && i != j implies a1[i].key
                    != a1[j].key by {
                    assert(a1[i].key == a0[i].key);
                    assert(a1[j].key == a0[j].key);
                }
            }
        }
    }

    /// Unlinks the node with the largest key of the left subtree of the node
    /// in slot `r_id`; `lft` is the slot of that subtree's root. Returns the
    /// slot of the unlinked node, a copy of the key from which rebalancing
    /// has to start (that of the node above the unlinked one; the unlinked
    /// key itself where that node is `r_id`, which is to take it over), and
    /// the model of the subtree at `r_id` as it will be once `r_id` holds the
    /// unlinked key.
    pub(crate) fn cut_max(&mut self, r_id: FreeListIndex, lft: FreeListIndex) -> (r: (
        FreeListIndex,
        K,
        Ghost<Shape<K>>,
    ))
        requires
            old(self).wf(),
            r_id.0 < old(self).nodes@.len(),
            old(self).nodes@[r_id.0 as int].lft == Some(lft),
        ensures
            final(self).detached(r.0.0 as int),
            final(self).nodes.namespace() == old(self).nodes.namespace(),
            r.0 != r_id,
            final(self).nodes@[r.0.0 as int].key == r.2@->key,
            final(self).shape@.keys() =~= old(self).shape@.keys().remove(r.2@->key),
            final(self).nodes@.len() == old(self).nodes@.len(),
            final(self).slot_keys() == old(self).slot_keys(),
            r_id.0 < final(self).nodes@.len(),
            final(self).nodes@[r_id.0 as int].key == old(self).nodes@[r_id.0 as int].key,
            r.2@ is Fork,
            final(self).shape@ == old(self).shape@.subst(
                old(self).nodes@[r_id.0 as int].key,
                Shape::Fork {
                    left: r.2@->left,
                    key: old(self).nodes@[r_id.0 as int].key,
                    ht: r.2@->ht,
                    right: r.2@->right,
                },
            ),
            r.2@.ordered(),
            r.2@.keys() =~= old(self).shape@.at(old(self).nodes@[r_id.0 as int].key).keys().remove(
                old(self).nodes@[r_id.0 as int].key,
            ),
            r.2@.size() + 1 == old(self).shape@.at(old(self).nodes@[r_id.0 as int].key).size(),
            r.2@.almost(r.1),
            r.2@.ht() == old(self).shape@.at(old(self).nodes@[r_id.0 as int].key).ht(),
            old(self).shape@.at(old(self).nodes@[r_id.0 as int].key).keys().contains(r.1),
            r.2@->key != old(self).nodes@[r_id.0 as int].key,
            r.2@ == (Shape::Fork {
                left: Box::new(
                    old(self).shape@.at(old(self).nodes@[r_id.0 as int].key)->left.without_max(),
                ),
                key: old(self).shape@.at(
                    old(self).nodes@[r_id.0 as int].key,
                )->left.max_key().unwrap(),
                ht: old(self).shape@.at(old(self).nodes@[r_id.0 as int].key)->ht,
                right: old(self).shape@.at(old(self).nodes@[r_id.0 as int].key)->right,
            }),
            r.1 == old(self).shape@.at(old(self).nodes@[r_id.0 as int].key)->left.above_max(),
    {
        let ghost a0 = self.nodes@;
        let ghost t = self.shape@;
        let ghost ri = r_id.0 as int;
        let ghost x = a0[ri].key;
        let ghost top = t.at(x);
        let ghost side = *top->left;
        let ghost other = *top->right;
        proof {
            lemma_order::<K>();
            assert(t.keys().contains(a0[ri].key));
            lemma_at(t, x);
            lemma_at_linked(a0, self.root, t, ri);
            assert(linked(a0, a0[ri].lft, side));
            assert(linked(a0, a0[ri].rgt, other));
            lemma_max_key(side);
        }
        let (n_id, q_id) = self.max_at(lft, r_id, Ghost(side));
        let ghost ni = n_id.0 as int;
        let ghost qi = q_id.0 as int;
        let ghost k = a0[ni].key;
        let ghost cut = side.at(k);
        let ghost rest = *cut->left;
        proof {
            assert(side.keys().contains(k));
            assert(top.keys().contains(k));
            assert(lt(k, x));
            lemma_at(side, k);
            lemma_at_linked(a0, a0[ri].lft, side, ni);
            assert(linked(a0, a0[ni].lft, rest));
            assert(linked(a0, a0[ni].rgt, *cut->right));
            assert(cut.keys().contains(k));
            reveal_with_fuel(Shape::keys, 2);
            reveal_with_fuel(Shape::size, 2);
            assert(cut->right.keys() =~= Set::<K>::empty());
            assert(cut.keys() =~= rest.keys().insert(k));
            assert(cut.size() == rest.size() + 1);
            assert(cut.ht() == rest.ht() + 1);
            assert forall|y: K| #[trigger] rest.keys().contains(y) implies side.keys().contains(
                y,
            ) && y != k by {
                assert(cut.keys().contains(y));
            }
            if side->key != k {
                lemma_parent_child(side, k);
                lemma_at(side, a0[qi].key);
                lemma_at_linked(a0, a0[ri].lft, side, qi);
            }
        }
        let unlinked = expect(self.nodes.get(n_id));
        let below = unlinked.lft;
        let guide = if q_id.0 == r_id.0 {
            key_clone(&unlinked.key)
        } else {
            key_clone(&expect(self.nodes.get(q_id)).key)
        };
        let above = expect(self.nodes.get(q_id));
        if leads_to(above.rgt, n_id.0) {
            self.set_right(q_id, below);
        } else {
            self.set_left(q_id, below);
        }
        let ghost a1 = self.nodes@;
        let ghost pruned: Shape<K>;
        proof {
            if side->key == k {
                assert(qi == ri);
                assert(cut == side);
                if a0[ri].rgt == Some(n_id) {
                    assert(other.keys().contains(other->key));
                }
                pruned = rest;
                assert forall|j: int|
                    0 <= j < a0.len() && rest.keys().contains(#[trigger] a0[j].key) implies j
                    < a1.len() && a1[j] == a0[j] by {}
                lemma_frame(a0, a1, below, rest);
            } else {
                let qk = a0[qi].key;
                let hub = side.at(qk);
                assert(side.keys().contains(qk));
                assert(qi != ri);
                assert(*hub->right == cut);
                assert(linked(a0, a0[qi].lft, *hub->left));
                let sub = Shape::Fork { left: hub->left, key: qk, ht: hub->ht, right: cut->left };
                assert(hub.keys().contains(qk));
                assert(hub.keys() =~= hub->left.keys().union(cut.keys()).insert(qk));
                assert forall|y: K| #[trigger] rest.keys().contains(y) implies lt(qk, y) by {
                    assert(hub->right.keys().contains(y));
                }
                assert forall|j: int|
                    0 <= j < a0.len() && rest.keys().contains(#[trigger] a0[j].key) implies j
                    < a1.len() && a1[j] == a0[j] by {}
                lemma_frame(a0, a1, below, rest);
                assert forall|j: int|
                    0 <= j < a0.len() && hub->left.keys().contains(#[trigger] a0[j].key) implies j
                    < a1.len() && a1[j] == a0[j] by {}
                lemma_frame(a0, a1, a0[qi].lft, *hub->left);
                assert(linked(a1, Some(q_id), sub));
                assert forall|j: int|
                    0 <= j < a0.len() && side.keys().contains(#[trigger] a0[j].key) && !hub.keys().contains(
                        a0[j].key,
                    ) implies j < a1.len() && a1[j] == a0[j] by {}
                lemma_subst_linked(a0, a1, a0[ri].lft, side, qi, sub);
                assert(sub.keys() =~= hub.keys().remove(k));
                assert(sub.ordered());
                assert(hub.keys().contains(k));
                lemma_cut(side, qk, sub, k);
                lemma_subst_keys(side, qk, sub);
                assert(sub.almost(qk));
                lemma_subst_almost(side, qk, sub, qk);
                lemma_subst_child(side, k, rest);
                pruned = side.subst(qk, sub);
            }
            assert(pruned == side.without_max());
            assert(pruned.keys() =~= side.keys().remove(k));
            assert(pruned.size() + 1 == side.size());
            assert(if side->key == k {
                pruned.ht() + 1 == side.ht() && pruned.avl()
            } else {
                pruned.ht() == side.ht() && pruned.almost(a0[qi].key)
            });
            assert(pruned.ordered());
            assert(linked(a1, a1[ri].lft, pruned));
            assert forall|j: int|
                0 <= j < a0.len() && other.keys().contains(#[trigger] a0[j].key) implies j
                < a1.len() && a1[j] == a0[j] by {
                assert(!side.keys().contains(a0[j].key));
            }
            lemma_frame(a0, a1, a0[ri].rgt, other);
        }
        let ghost stale = Shape::Fork {
            left: Box::new(pruned),
            key: x,
            ht: top->ht,
            right: Box::new(other),
        };
        let ghost taken = Shape::Fork {
            left: Box::new(pruned),
            key: k,
            ht: top->ht,
            right: Box::new(other),
        };
        self.shape = Ghost(t.subst(x, stale));
        proof {
            assert(linked(a1, Some(r_id), stale));
            assert(top.keys().contains(x));
            assert forall|j: int|
                0 <= j < a0.len() && t.keys().contains(#[trigger] a0[j].key) && !top.keys().contains(
                    a0[j].key,
                ) implies j < a1.len() && a1[j] == a0[j] by {
                assert(!side.keys().contains(a0[j].key));
            }
            lemma_subst_linked(a0, a1, self.root, t, ri, stale);
            assert(top.keys() =~= side.keys().union(other.keys()).insert(x));
            assert(stale.keys() =~= top.keys().remove(k));
            assert forall|y: K| #[trigger] pruned.keys().contains(y) implies lt(y, x) && lt(
                y,
                k,
            ) by {
                assert(side.keys().contains(y));
            }
            assert forall|y: K| #[trigger] other.keys().contains(y) implies lt(k, y) by {
                assert(lt(x, y));
            }
            assert(stale.ordered());
            assert(taken.ordered());
            lemma_cut(t, x, stale, k);
            assert(taken.keys() =~= top.keys().remove(x));
            assert(taken.almost(guide));
            assert(self.slot_keys() =~= old(self).slot_keys());
            assert forall|j: int| 0 <= j < a1.len() && j != ni implies self.shape@.keys().contains(
                #[trigger] a1[j].key,
            ) by {
                assert(a1[j].key == a0[j].key);
                assert(t.keys().contains(a0[j].key));
            }
            assert(distinct_keys(a1)) by {
                assert forall|i: int, j: int|
                    0 <= i < a1.len() && 0 <= j < a1.len() && i != j implies a1[i].key
                    != a1[j].key by {
                    assert(a1[i].key == a0[i].key);
                    assert(a1[j].key == a0[j].key);
                }
            }
        }
        (n_id, guide, Ghost(taken))
    }

    /// Unlinks the node with the smallest key of the right subtree of the node
    /// in slot `r_id`; `rgt` is the slot of that subtree's root. Returns the
    /// slot of the unlinked node, a copy of the key from which rebalancing
    /// has to start (that of the node above the unlinked one; the unlinked
    /// key itself where that node is `r_id`, which is to take it over), and
    /// the model of the subtree at `r_id` as it will be once `r_id` holds the
    /// unlinked key.
    pub(crate) fn cut_min(&mut self, r_id: FreeListIndex, rgt: FreeListIndex) -> (r: (
        FreeListIndex,
        K,
        Ghost<Shape<K>>,
    ))
        requires
            old(self).wf(),
            r_id.0 < old(self).nodes@.len(),
            old(self).nodes@[r_id.0 as int].rgt == Some(rgt),
        ensures
            final(self).detached(r.0.0 as int),
            final(self).nodes.namespace() == old(self).nodes.namespace(),
            r.0 != r_id,
            final(self).nodes@[r.0.0 as int].key == r.2@->key,
            final(self).shape@.keys() =~= old(self).shape@.keys().remove(r.2@->key),
            final(self).nodes@.len() == old(self).nodes@.len(),
            final(self).slot_keys() == old(self).slot_keys(),
            r_id.0 < final(self).nodes@.len(),
            final(self).nodes@[r_id.0 as int].key == old(self).nodes@[r_id.0 as int].key,
            r.2@ is Fork,
            final(self).shape@ == old(self).shape@.subst(
                old(self).nodes@[r_id.0 as int].key,
                Shape::Fork {
                    right: r.2@->right,
                    key: old(self).nodes@[r_id.0 as int].key,
                    ht: r.2@->ht,
                    left: r.2@->left,
                },
            ),
            r.2@.ordered(),
            r.2@.keys() =~= old(self).shape@.at(old(self).nodes@[r_id.0 as int].key).keys().remove(
                old(self).nodes@[r_id.0 as int].key,
            ),
            r.2@.size() + 1 == old(self).shape@.at(old(self).nodes@[r_id.0 as int].key).size(),
            r.2@.almost(r.1),
            r.2@.ht() == old(self).shape@.at(old(self).nodes@[r_id.0 as int].key).ht(),
            old(self).shape@.at(old(self).nodes@[r_id.0 as int].key).keys().contains(r.1),
            r.2@->key != old(self).nodes@[r_id.0 as int].key,
            r.2@ == (Shape::Fork {
                right: Box::new(
                    old(self).shape@.at(old(self).nodes@[r_id.0 as int].key)->right.without_min(),
                ),
                key: old(self).shape@.at(
                    old(self).nodes@[r_id.0 as int].key,
                )->right.min_key().unwrap(),
                ht: old(self).shape@.at(old(self).nodes@[r_id.0 as int].key)->ht,
                left: old(self).shape@.at(old(self).nodes@[r_id.0 as int].key)->left,
            }),
            r.1 == old(self).shape@.at(old(self).nodes@[r_id.0 as int].key)->right.above_min(),
    {
        let ghost a0 = self.nodes@;
        let ghost t = self.shape@;
        let ghost ri = r_id.0 as int;
        let ghost x = a0[ri].key;
        let ghost top = t.at(x);
        let ghost side = *top->right;
        let ghost other = *top->left;
        proof {
            lemma_order::<K>();
            assert(t.keys().contains(a0[ri].key));
            lemma_at(t, x);
            lemma_at_linked(a0, self.root, t, ri);
            assert(linked(a0, a0[ri].rgt, side));
            assert(linked(a0, a0[ri].lft, other));
            lemma_min_key(side);
        }
        let (n_id, q_id) = self.min_at(rgt, r_id, Ghost(side));
        let ghost ni = n_id.0 as int;
        let ghost qi = q_id.0 as int;
        let ghost k = a0[ni].key;
        let ghost cut = side.at(k);
        let ghost rest = *cut->right;
        proof {
            assert(side.keys().contains(k));
            assert(top.keys().contains(k));
            assert(lt(x, k));
            lemma_at(side, k);
            lemma_at_linked(a0, a0[ri].rgt, side, ni);
            assert(linked(a0, a0[ni].rgt, rest));
            assert(linked(a0, a0[ni].lft, *cut->left));
            assert(cut.keys().contains(k));
            reveal_with_fuel(Shape::keys, 2);
            reveal_with_fuel(Shape::size, 2);
            assert(cut->left.keys() =~= Set::<K>::empty());
            assert(cut.keys() =~= rest.keys().insert(k));
            assert(cut.size() == rest.size() + 1);
            assert(cut.ht() == rest.ht() + 1);
            assert forall|y: K| #[trigger] rest.keys().contains(y) implies side.keys().contains(
                y,
            ) && y != k by {
                assert(cut.keys().contains(y));
            }
            if side->key != k {
                lemma_parent_child(side, k);
                lemma_at(side, a0[qi].key);
                lemma_at_linked(a0, a0[ri].rgt, side, qi);
            }
        }
        let unlinked = expect(self.nodes.get(n_id));
        let below = unlinked.rgt;
        let guide = if q_id.0 == r_id.0 {
            key_clone(&unlinked.key)
        } else {
            key_clone(&expect(self.nodes.get(q_id)).key)
        };
        let above = expect(self.nodes.get(q_id));
        if leads_to(above.lft, n_id.0) {
            self.set_left(q_id, below);
        } else {
            self.set_right(q_id, below);
        }
        let ghost a1 = self.nodes@;
        let ghost pruned: Shape<K>;
        proof {
            if side->key == k {
                assert(qi == ri);
                assert(cut == side);
                if a0[ri].lft == Some(n_id) {
                    assert(other.keys().contains(other->key));
                }
                pruned = rest;
                assert forall|j: int|
                    0 <= j < a0.len() && rest.keys().contains(#[trigger] a0[j].key) implies j
                    < a1.len() && a1[j] == a0[j] by {}
                lemma_frame(a0, a1, below, rest);
            } else {
                let qk = a0[qi].key;
                let hub = side.at(qk);
                assert(side.keys().contains(qk));
                assert(qi != ri);
                assert(*hub->left == cut);
                assert(linked(a0, a0[qi].rgt, *hub->right));
                let sub = Shape::Fork { right: hub->right, key: qk, ht: hub->ht, left: cut->right };
                assert(hub.keys().contains(qk));
                assert(hub.keys() =~= hub->right.keys().union(cut.keys()).insert(qk));
                assert forall|y: K| #[trigger] rest.keys().contains(y) implies lt(y, qk) by {
                    assert(hub->left.keys().contains(y));
                }
                assert forall|j: int|
                    0 <= j < a0.len() && rest.keys().contains(#[trigger] a0[j].key) implies j
                    < a1.len() && a1[j] == a0[j] by {}
                lemma_frame(a0, a1, below, rest);
                assert forall|j: int|
                    0 <= j < a0.len() && hub->right.keys().contains(#[trigger] a0[j].key) implies j
                    < a1.len() && a1[j] == a0[j] by {}
                lemma_frame(a0, a1, a0[qi].rgt, *hub->right);
                assert(linked(a1, Some(q_id), sub));
                assert forall|j: int|
                    0 <= j < a0.len() && side.keys().contains(#[trigger] a0[j].key) && !hub.keys().contains(
                        a0[j].key,
                    ) implies j < a1.len() && a1[j] == a0[j] by {}
                lemma_subst_linked(a0, a1, a0[ri].rgt, side, qi, sub);
                assert(sub.keys() =~= hub.keys().remove(k));
                assert(sub.ordered());
                assert(hub.keys().contains(k));
                lemma_cut(side, qk, sub, k);
                lemma_subst_keys(side, qk, sub);
                assert(sub.almost(qk));
                lemma_subst_almost(side, qk, sub, qk);
                lemma_subst_child(side, k, rest);
                pruned = side.subst(qk, sub);
            }
            assert(pruned == side.without_min());
            assert(pruned.keys() =~= side.keys().remove(k));
            assert(pruned.size() + 1 == side.size());
            assert(if side->key == k {
                pruned.ht() + 1 == side.ht() && pruned.avl()
            } else {
                pruned.ht() == side.ht() && pruned.almost(a0[qi].key)
            });
            assert(pruned.ordered());
            assert(linked(a1, a1[ri].rgt, pruned));
            assert forall|j: int|
                0 <= j < a0.len() && other.keys().contains(#[trigger] a0[j].key) implies j
                < a1.len() && a1[j] == a0[j] by {
                assert(!side.keys().contains(a0[j].key));
            }
            lemma_frame(a0, a1, a0[ri].lft, other);
        }
        let ghost stale = Shape::Fork {
            right: Box::new(pruned),
            key: x,
            ht: top->ht,
            left: Box::new(other),
        };
        let ghost taken = Shape::Fork {
            right: Box::new(pruned),
            key: k,
            ht: top->ht,
            left: Box::new(other),
        };
        self.shape = Ghost(t.subst(x, stale));
        proof {
            assert(linked(a1, Some(r_id), stale));
            assert(top.keys().contains(x));
            assert forall|j: int|
                0 <= j < a0.len() && t.keys().contains(#[trigger] a0[j].key) && !top.keys().contains(
                    a0[j].key,
                ) implies j < a1.len() && a1[j] == a0[j] by {
                assert(!side.keys().contains(a0[j].key));
            }
            lemma_subst_linked(a0, a1, self.root, t, ri, stale);
            assert(top.keys() =~= side.keys().union(other.keys()).insert(x));
            assert(stale.keys() =~= top.keys().remove(k));
            assert forall|y: K| #[trigger] pruned.keys().contains(y) implies lt(x, y) && lt(k, y) by {
                assert(side.keys().contains(y));
            }
            assert forall|y: K| #[trigger] other.keys().contains(y) implies lt(y, k) by {
                assert(lt(y, x));
            }
            assert(stale.ordered());
            assert(taken.ordered());
            lemma_cut(t, x, stale, k);
            assert(taken.keys() =~= top.keys().remove(x));
            assert(taken.almost(guide));
            assert(self.slot_keys() =~= old(self).slot_keys());
            assert forall|j: int| 0 <= j < a1.len() && j != ni implies self.shape@.keys().contains(
                #[trigger] a1[j].key,
            ) by {
                assert(a1[j].key == a0[j].key);
                assert(t.keys().contains(a0[j].key));
            }
            assert(distinct_keys(a1)) by {
                assert forall|i: int, j: int|
                    0 <= i < a1.len() && 0 <= j < a1.len() && i != j implies a1[i].key
                    != a1[j].key by {
                    assert(a1[i].key == a0[i].key);
                    assert(a1[j].key == a0[j].key);
                }
            }
        }
        (n_id, guide, Ghost(taken))
    }

    /// Completes the unlinking of a substitute: gives the slot `n_id` of the
    /// unlinked node back to the arena and puts its key into the node that
    /// was in slot `r_id`, wherever that node is afterwards. `t` is the tree
    /// from before the substitute was unlinked, `taken` the subtree at the
    /// node of `r_id` as it is once that node holds the key.
    pub(crate) fn take_over(
        &mut self,
        r_id: FreeListIndex,
        n_id: FreeListIndex,
        Ghost(t): Ghost<Shape<K>>,
        Ghost(taken): Ghost<Shape<K>>,
    )
        requires
            old(self).detached(n_id.0 as int),
            r_id != n_id,
            r_id.0 < old(self).nodes@.len(),
            t.ordered(),
            t.keys().contains(old(self).nodes@[r_id.0 as int].key),
            t.size() == old(self).nodes@.len(),
            taken is Fork,
            taken->key == old(self).nodes@[n_id.0 as int].key,
            taken->key != old(self).nodes@[r_id.0 as int].key,
            old(self).shape@.keys() =~= t.keys().remove(taken->key),
            old(self).shape@ == t.subst(
                old(self).nodes@[r_id.0 as int].key,
                Shape::Fork {
                    left: taken->left,
                    key: old(self).nodes@[r_id.0 as int].key,
                    ht: taken->ht,
                    right: taken->right,
                },
            ),
            taken.ordered(),
            taken.keys() =~= t.at(old(self).nodes@[r_id.0 as int].key).keys().remove(
                old(self).nodes@[r_id.0 as int].key,
            ),
            taken.size() + 1 == t.at(old(self).nodes@[r_id.0 as int].key).size(),
        ensures
            final(self).sound(),
            final(self).shape@ == t.subst(old(self).nodes@[r_id.0 as int].key, taken),
            final(self).shape@.keys() =~= t.keys().remove(old(self).nodes@[r_id.0 as int].key),
            final(self).slot_keys() == swap_removed(
                old(self).slot_keys().update(r_id.0 as int, taken->key),
                n_id.0 as int,
            ),
            final(self).nodes@.len() == old(self).nodes@.len() - 1,
            final(self).nodes.pending(),
            final(self).nodes.namespace() == old(self).nodes.namespace(),
    {
        let ghost a1 = self.nodes@;
        let ghost t1 = self.shape@;
        let ghost ri = r_id.0 as int;
        let ghost x = a1[ri].key;
        let ghost k = taken->key;
        let ghost stale = Shape::Fork {
            left: taken->left,
            key: x,
            ht: taken->ht,
            right: taken->right,
        };
        proof {
            lemma_order::<K>();
            lemma_at(t, x);
        }
        let last = self.nodes.len() - 1;
        let unlinked = self.reclaim(n_id);
        let r_now = if r_id.0 == last {
            n_id
        } else {
            r_id
        };
        let ghost a2 = self.nodes@;
        let ghost rn = r_now.0 as int;
        proof {
            assert(a2[rn].key == x);
            assert(t1.keys().contains(x));
            lemma_at_subst(t, x, stale);
            lemma_at(t1, x);
            lemma_at_linked(a2, self.root, t1, rn);
            assert(linked(a2, a2[rn].lft, *stale->left));
            assert(linked(a2, a2[rn].rgt, *stale->right));
            lemma_cut(t, x, taken, x);
            lemma_subst_twice(t, x, stale, taken);
            assert(stale.ordered());
        }
        self.set_key(r_now, unlinked.key);
        self.shape = Ghost(t.subst(x, taken));
        proof {
            let a3 = self.nodes@;
            let t2 = self.shape@;
            assert forall|j: int|
                0 <= j < a2.len() && stale->left.keys().contains(#[trigger] a2[j].key) implies j
                < a3.len() && a3[j] == a2[j] by {}
            lemma_frame(a2, a3, a2[rn].lft, *stale->left);
            assert forall|j: int|
                0 <= j < a2.len() && stale->right.keys().contains(#[trigger] a2[j].key) implies j
                < a3.len() && a3[j] == a2[j] by {}
            lemma_frame(a2, a3, a2[rn].rgt, *stale->right);
            assert(linked(a3, Some(r_now), taken));
            assert(stale.keys().contains(x));
            lemma_subst_linked(a2, a3, self.root, t1, rn, taken);
            assert(distinct_keys(a3)) by {
                assert forall|i: int, j: int|
                    0 <= i < a3.len() && 0 <= j < a3.len() && i != j implies a3[i].key
                    != a3[j].key by {
                    assert(t1.keys().contains(a2[i].key));
                    assert(t1.keys().contains(a2[j].key));
                }
            }
            assert(covered(a3, t2)) by {
                assert forall|i: int| 0 <= i < a3.len() implies t2.keys().contains(
                    #[trigger] a3[i].key,
                ) by {
                    assert(t1.keys().contains(a2[i].key));
                    assert(taken.keys().contains(k));
                    assert(t.at(x).keys().contains(k));
                }
            }
            assert(keys_of(a3) =~= swap_removed(keys_of(a1).update(ri, k), n_id.0 as int));
        }
    }

    /// Rebalances the path from the root down the search path for `guide`,
    /// which completes a removal. Returns the root afterwards.
    pub(crate) fn settle(&mut self, guide: &K) -> (r: Option<FreeListIndex>)
        requires
            old(self).sound(),
            old(self).shape@.almost(*guide),
        ensures
            final(self).wf(),
            final(self).shape@ == old(self).shape@.mended(*guide),
            final(self).slot_keys() == old(self).slot_keys(),
            final(self).shape@.keys() == old(self).shape@.keys(),
            r == final(self).root,
            final(self).nodes.namespace() == old(self).nodes.namespace(),
            final(self).nodes@.len() == old(self).nodes@.len(),
            old(self).nodes.pending() ==> final(self).nodes.pending(),
    {
        let ghost a0 = self.nodes@;
        let ghost t = self.shape@;
        match self.root {
            None => None,
            Some(root) => {
                let (top, Ghost(done)) = self.check_balance(root, guide, Ghost(t));
                self.root = Some(top);
                self.shape = Ghost(done);
                proof {
                    let a1 = self.nodes@;
                    assert(distinct_keys(a1)) by {
                        assert forall|i: int, j: int|
                            0 <= i < a1.len() && 0 <= j < a1.len() && i != j implies a1[i].key
                            != a1[j].key by {
                            assert(a1[i].key == a0[i].key);
                            assert(a1[j].key == a0[j].key);
                        }
                    }
                    assert(covered(a1, done)) by {
                        assert forall|i: int| 0 <= i < a1.len() implies done.keys().contains(
                            #[trigger] a1[i].key,
                        ) by {
                            assert(a1[i].key == a0[i].key);
                            assert(t.keys().contains(a0[i].key));
                        }
                    }
                    assert(self.slot_keys() =~= old(self).slot_keys());
                }
                Some(top)
            },
        }
    }

    /// Takes `key` out of the index and returns the root afterwards. Nothing
    /// changes if the index does not hold `key`.
    ///
    /// A node without children is unlinked from the node above it. Any other
    /// node stays where it is and takes over the key of a substitute, which
    /// is unlinked in its place: the largest key of its left subtree if that
    /// subtree is at least as high as the right one, else the smallest key of
    /// its right subtree. The slot of the unlinked node goes back to the
    /// arena, and the path above it is rebalanced.
    #[verifier::rlimit(20)]
    pub fn do_remove(&mut self, key: &K) -> (r: Option<FreeListIndex>)
        requires
            old(self).wf(),
        ensures
            final(self).wf(),
            final(self)@ == old(self)@.remove(*key),
            final(self).shape() == old(self).shape().pruned(*key),
            final(self).slot_keys() == slots_without(old(self).slot_keys(), old(self).shape(), *key),
            r == final(self).root_link(),
            final(self).list().namespace() == old(self).list().namespace(),
            !old(self)@.contains(*key) ==> *final(self) == *old(self),
            old(self)@.contains(*key) ==> final(self).list().pending(),
            old(self)@.contains(*key) ==> final(self).arena().len() == old(self).arena().len() - 1,
    {
        let ghost a0 = self.nodes@;
        let ghost t = self.shape@;
        let ghost x = *key;
        proof {
            lemma_order::<K>();
        }
        let root = match self.root {
            Some(root) => root,
            None => {
                proof {
                    assert(t.keys().remove(x) =~= t.keys());
                }
                return None;
            },
        };
        let (r_id, p_id) = match self.lookup_at(root, key, Ghost(t)) {
            Some(found) => found,
            None => {
                proof {
                    assert(t.keys().remove(x) =~= t.keys());
                }
                return self.root;
            },
        };
        let ghost ri = r_id.0 as int;
        let ghost top = t.at(x);
        proof {
            lemma_at(t, x);
            lemma_slot_of_key(a0, ri);
            lemma_at_linked(a0, self.root, t, ri);
            assert(linked(a0, a0[ri].lft, *top->left));
            assert(linked(a0, a0[ri].rgt, *top->right));
            if t->key != x {
                lemma_parent_key(t, x);
            }
        }
        let target = expect(self.nodes.get(r_id));
        let lft_opt = target.lft;
        let rgt_opt = target.rgt;
        let balance = self.get_balance(target);
        if lft_opt.is_none() && rgt_opt.is_none() {
            if r_id.0 == p_id.0 {
                proof {
                    reveal_with_fuel(Shape::size, 2);
                    reveal_with_fuel(Shape::keys, 2);
                    assert(t->key == x);
                    assert(t.size() == 1);
                    assert(t.keys() =~= set![x]);
                    assert(Shape::<K>::Nil.keys() =~= t.keys().remove(x));
                }
                self.root = None;
                self.shape = Ghost(Shape::Nil);
                let _ = self.reclaim(r_id);
                return None;
            }
            self.cut_leaf(r_id, p_id, key);
            let _ = self.reclaim(r_id);
            self.settle(key)
        } else {
            let (n_id, guide, Ghost(taken)) = if balance >= 0 {
                proof {
                    if lft_opt.is_none() {
                        reveal_with_fuel(Shape::avl, 2);
                        assert((*top->right) is Fork);
                        assert(top->right.ht() >= 1);
                    }
                }
                self.cut_max(r_id, expect(lft_opt))
            } else {
                self.cut_min(r_id, expect(rgt_opt))
            };
            let ghost k = taken->key;
            proof {
                assert(a0[n_id.0 as int].key == k) by {
                    assert(keys_of(self.nodes@)[n_id.0 as int] == keys_of(a0)[n_id.0 as int]);
                }
                lemma_slot_of_key(a0, n_id.0 as int);
                assert(top.substitute() == Some(k));
                assert(top.keys().contains(k));
            }
            self.take_over(r_id, n_id, Ghost(t), Ghost(taken));
            proof {
                lemma_subst_almost(t, x, taken, guide);
            }
            self.settle(&guide)
        }
    }
}

} // verus!
