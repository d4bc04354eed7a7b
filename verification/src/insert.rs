//! Insertion into the index.

use crate::free_list::FreeListIndex;
use crate::link_lemmas::lemma_frame;
use crate::node::{expect, Node};
use crate::order::{key_eq, key_laws, key_lt, lemma_order, lt};
use crate::shape::{fork, linked, Shape};
use crate::shape_lemmas::lemma_avl_height;
use crate::tree::Tree;
use vstd::prelude::*;

verus! {

impl<K: Ord + Clone> Tree<K> {
    /// Adds `key` to the index. Nothing changes if the index holds it
    /// already; otherwise its node takes the next free slot.
    pub fn internal_insert(&mut self, key: K)
        requires
            old(self).wf(),
            old(self)@.contains(key) || old(self).arena().len() < u32::MAX,
        ensures
            final(self).wf(),
            final(self)@ == old(self)@.insert(key),
            final(self).shape() == old(self).shape().grown(key),
            !old(self)@.contains(key) ==> final(self).list().pending(),
            final(self).list().namespace() == old(self).list().namespace(),
            old(self)@.contains(key) ==> final(self).arena() == old(self).arena() && final(self).root_link() == old(self).root_link(),
            !old(self)@.contains(key) ==> final(self).slot_keys() == old(self).slot_keys().push(key),
    {
        let ghost a0 = self.nodes@;
        let ghost t = self.shape@;
        match self.root {
            Some(root) => {
                let (top, Ghost(grown)) = self.insert_at(root, key, Ghost(t));
                self.root = Some(top);
                self.shape = Ghost(grown);
                proof {
                    let a1 = self.nodes@;
                    if !t.keys().contains(key) {
                        assert forall|i: int, j: int|
                            0 <= i < a1.len() && 0 <= j < a1.len() && i != j implies a1[i].key
                            != a1[j].key by {
                            if i < a0.len() {
                                assert(a1[i].key == a0[i].key);
                            }
                            if j < a0.len() {
                                assert(a1[j].key == a0[j].key);
                            }
                        }
                        assert forall|i: int| 0 <= i < a1.len() implies grown.keys().contains(
                            #[trigger] a1[i].key,
                        ) by {
                            if i < a0.len() {
                                assert(a1[i].key == a0[i].key);
                                assert(t.keys().contains(a0[i].key));
                            }
                        }
                    }
                    assert(self.slot_keys() =~= if t.keys().contains(key) {
                        old(self).slot_keys()
                    } else {
                        old(self).slot_keys().push(key)
                    });
                }
            },
            None => {
                let id = self.nodes.insert(Node::of(key));
                self.root = Some(id);
                self.shape = Ghost(fork(Shape::Nil, key, Shape::Nil));
                proof {
                    reveal_with_fuel(linked, 2);
                    reveal_with_fuel(Shape::ordered, 2);
                    reveal_with_fuel(Shape::avl, 2);
                    reveal_with_fuel(Shape::size, 2);
                    assert(t is Nil);
                    assert(t.keys() =~= Set::<K>::empty());
                    assert(self.shape@.keys() =~= t.keys().insert(key));
                    assert(self.slot_keys() =~= old(self).slot_keys().push(key));
                }
            },
        }
    }

    /// Adds `key` to the subtree `t` rooted in slot `id`, rebalancing every
    /// node on the way back up. Returns the slot of the root of the subtree
    /// afterwards, and its model.
    pub(crate) fn insert_at(&mut self, id: FreeListIndex, key: K, Ghost(t): Ghost<Shape<K>>) -> (r: (
        FreeListIndex,
        Ghost<Shape<K>>,
    ))
        requires
            key_laws::<K>(),
            old(self).nodes.wf(),
            linked(old(self).nodes@, Some(id), t),
            t.ordered(),
            t.avl(),
            t.size() <= old(self).nodes@.len(),
            t.keys().contains(key) || (old(self).nodes@.len() < u32::MAX && forall|j: int|
                0 <= j < old(self).nodes@.len() ==> (#[trigger] old(self).nodes@[j]).key != key),
        ensures
            final(self).rest_as(old(self)),
            linked(final(self).nodes@, Some(r.0), r.1@),
            r.1@ == t.grown(key),
            r.1@.ordered(),
            r.1@.avl(),
            r.1@.keys() == t.keys().insert(key),
            t.ht() <= r.1@.ht() <= t.ht() + 1,
            t.keys().contains(key) ==> r.1@ == t && r.0 == id && final(self).nodes@ == old(self).nodes@,
            !t.keys().contains(key) ==> {
                &&& final(self).nodes.pending()
                &&& r.1@.size() == t.size() + 1
                &&& final(self).nodes@.len() == old(self).nodes@.len() + 1
                &&& final(self).nodes@[old(self).nodes@.len() as int].key == key
                &&& forall|j: int|
                    0 <= j < old(self).nodes@.len() ==> (#[trigger] final(self).nodes@[j]).key
                        == old(self).nodes@[j].key
                &&& forall|j: int|
                    0 <= j < old(self).nodes@.len() && !t.keys().contains(old(self).nodes@[j].key)
                        ==> #[trigger] final(self).nodes@[j] == old(self).nodes@[j]
            },
        decreases t,
    {
        let ghost a0 = self.nodes@;
        let ghost l = *t->left;
        let ghost r = *t->right;
        let ghost x = t->key;
        proof {
            lemma_order::<K>();
            assert(linked(a0, a0[id.0 as int].lft, l));
            assert(linked(a0, a0[id.0 as int].rgt, r));
            lemma_avl_height(l);
            lemma_avl_height(r);
        }
        let node = expect(self.nodes.get(id));
        let lft = node.lft;
        let rgt = node.rgt;
        if key_eq(&key, &node.key) {
            proof {
                assert(t.keys().insert(key) =~= t.keys());
            }
            return (id, Ghost(t));
        }
        let to_left = key_lt(&key, &node.key);
        let ghost present = t.keys().contains(key);
        let ghost grown: Shape<K>;
        let ghost stale: Shape<K>;
        if to_left {
            proof {
                assert(!r.keys().contains(key));
            }
            let idx = match lft {
                Some(lft) => {
                    let (idx, Ghost(g)) = self.insert_at(lft, key, Ghost(l));
                    proof {
                        grown = g;
                    }
                    idx
                },
                None => {
                    proof {
                        grown = fork(Shape::Nil, key, Shape::Nil);
                        assert(l.keys() =~= Set::<K>::empty());
                        assert(grown.keys() =~= l.keys().insert(key));
                    }
                    self.nodes.insert(Node::of(key))
                },
            };
            let ghost a1 = self.nodes@;
            proof {
                if lft.is_none() {
                    reveal_with_fuel(linked, 2);
                    reveal_with_fuel(Shape::ordered, 2);
                    reveal_with_fuel(Shape::avl, 2);
                    reveal_with_fuel(Shape::size, 2);
                    assert(linked(a1, Some(idx), grown));
                    assert(grown.ordered() && grown.avl() && grown.size() == 1);
                }
                assert(grown.keys() == l.keys().insert(key));
                assert(a1[id.0 as int] == a0[id.0 as int]);
                assert forall|j: int|
                    0 <= j < a0.len() && r.keys().contains(#[trigger] a0[j].key) implies j
                    < a1.len() && a1[j] == a0[j] by {
                    assert(!l.keys().contains(a0[j].key));
                }
                lemma_frame(a0, a1, rgt, r);
            }
            self.set_left(id, Some(idx));
            proof {
                let a2 = self.nodes@;
                stale = Shape::Fork {
                    left: Box::new(grown),
                    key: x,
                    ht: t->ht,
                    right: Box::new(r),
                };
                assert forall|j: int|
                    0 <= j < a1.len() && grown.keys().contains(#[trigger] a1[j].key) implies j
                    < a2.len() && a2[j] == a1[j] by {}
                lemma_frame(a1, a2, Some(idx), grown);
                assert forall|j: int|
                    0 <= j < a1.len() && r.keys().contains(#[trigger] a1[j].key) implies j
                    < a2.len() && a2[j] == a1[j] by {}
                lemma_frame(a1, a2, rgt, r);
                lemma_avl_height(grown);
            }
        } else {
            proof {
                assert(!l.keys().contains(key));
            }
            let idx = match rgt {
                Some(rgt) => {
                    let (idx, Ghost(g)) = self.insert_at(rgt, key, Ghost(r));
                    proof {
                        grown = g;
                    }
                    idx
                },
                None => {
                    proof {
                        grown = fork(Shape::Nil, key, Shape::Nil);
                        assert(r.keys() =~= Set::<K>::empty());
                        assert(grown.keys() =~= r.keys().insert(key));
                    }
                    self.nodes.insert(Node::of(key))
                },
            };
            let ghost a1 = self.nodes@;
            proof {
                if rgt.is_none() {
                    reveal_with_fuel(linked, 2);
                    reveal_with_fuel(Shape::ordered, 2);
                    reveal_with_fuel(Shape::avl, 2);
                    reveal_with_fuel(Shape::size, 2);
                    assert(linked(a1, Some(idx), grown));
                    assert(grown.ordered() && grown.avl() && grown.size() == 1);
                }
                assert(grown.keys() == r.keys().insert(key));
                assert(a1[id.0 as int] == a0[id.0 as int]);
                assert forall|j: int|
                    0 <= j < a0.len() && l.keys().contains(#[trigger] a0[j].key) implies j
                    < a1.len() && a1[j] == a0[j] by {
                    assert(!r.keys().contains(a0[j].key));
                }
                lemma_frame(a0, a1, lft, l);
            }
            self.set_right(id, Some(idx));
            proof {
                let a2 = self.nodes@;
                stale = Shape::Fork {
                    left: Box::new(l),
                    key: x,
                    ht: t->ht,
                    right: Box::new(grown),
                };
                assert forall|j: int|
                    0 <= j < a1.len() && grown.keys().contains(#[trigger] a1[j].key) implies j
                    < a2.len() && a2[j] == a1[j] by {}
                lemma_frame(a1, a2, Some(idx), grown);
                assert forall|j: int|
                    0 <= j < a1.len() && l.keys().contains(#[trigger] a1[j].key) implies j
                    < a2.len() && a2[j] == a1[j] by {}
                lemma_frame(a1, a2, lft, l);
                lemma_avl_height(grown);
            }
        }
        let ghost a2 = self.nodes@;
        proof {
            assert(linked(a2, Some(id), stale));
            assert(stale.keys() =~= t.keys().insert(key));
        }
        self.update_height(id);
        let ghost a3 = self.nodes@;
        let ghost fresh = Shape::Fork {
            left: stale->left,
            key: x,
            ht: a3[id.0 as int].ht as nat,
            right: stale->right,
        };
        proof {
            assert forall|j: int|
                0 <= j < a2.len() && stale->left.keys().contains(#[trigger] a2[j].key) implies j
                < a3.len() && a3[j] == a2[j] by {}
            lemma_frame(a2, a3, a2[id.0 as int].lft, *stale->left);
            assert forall|j: int|
                0 <= j < a2.len() && stale->right.keys().contains(#[trigger] a2[j].key) implies j
                < a3.len() && a3[j] == a2[j] by {}
            lemma_frame(a2, a3, a2[id.0 as int].rgt, *stale->right);
            assert(linked(a3, Some(id), fresh));
            assert(fresh.keys() =~= t.keys().insert(key));
            assert forall|y: K| #[trigger] fresh->left.keys().contains(y) implies lt(y, x) by {
                if to_left {
                    assert(y == key || l.keys().contains(y));
                }
            }
            assert forall|y: K| #[trigger] fresh->right.keys().contains(y) implies lt(x, y) by {
                if !to_left {
                    assert(y == key || r.keys().contains(y));
                }
            }
            assert(fresh.ordered());
            if present {
                assert(fresh == t);
                assert(a3 =~= a0);
            }
        }
        let (top, Ghost(done)) = self.enforce_balance(id, Ghost(fresh));
        proof {
            let a4 = self.nodes@;
            if !present {
                assert forall|j: int| 0 <= j < a0.len() implies (#[trigger] a4[j]).key
                    == a0[j].key by {
                    assert(a3[j].key == a0[j].key);
                }
                assert forall|j: int|
                    0 <= j < a0.len() && !t.keys().contains(a0[j].key) implies #[trigger] a4[j]
                    == a0[j] by {
                    assert(a3[j] == a0[j]);
                    assert(!fresh.keys().contains(a3[j].key));
                }
            }
        }
        (top, Ghost(done))
    }
}

} // verus!
