//! Facts about shapes on their own: searching, replacing a subtree, heights.

use crate::order::{key_laws, lemma_order, lt};
use crate::shape::{fork, min_nodes, rot_left, rot_right, Shape};
use vstd::prelude::*;

verus! {

/// In an ordered tree, searching for a key of the tree finds the subtree
/// rooted at it, and that subtree is a part of the tree.
pub proof fn lemma_at<K: Ord + Clone>(t: Shape<K>, x: K)
    requires
        key_laws::<K>(),
        t.ordered(),
        t.keys().contains(x),
    ensures
        t.at(x) is Fork,
        t.at(x)->key == x,
        t.at(x).ordered(),
        t.at(x).keys().subset_of(t.keys()),
        t.at(x).size() <= t.size(),
        t.avl() ==> t.at(x).avl(),
    decreases t,
{
    lemma_order::<K>();
    match t {
        Shape::Nil => {},
        Shape::Fork { left, key, right, .. } => {
            if x == key {
            } else if lt(x, key) {
                assert(!right.keys().contains(x));
                lemma_at(*left, x);
            } else {
                assert(!left.keys().contains(x));
                lemma_at(*right, x);
            }
        },
    }
}

/// The keys of a tree after a subtree was replaced.
pub proof fn lemma_subst_keys<K: Ord + Clone>(t: Shape<K>, x: K, sub: Shape<K>)
    requires
        key_laws::<K>(),
        t.ordered(),
        t.keys().contains(x),
    ensures
        t.subst(x, sub).keys() =~= t.keys().difference(t.at(x).keys()).union(sub.keys()),
        t.subst(x, sub).size() + t.at(x).size() == t.size() + sub.size(),
        sub.ht() == t.at(x).ht() ==> t.subst(x, sub).ht() == t.ht(),
    decreases t,
{
    lemma_order::<K>();
    match t {
        Shape::Nil => {},
        Shape::Fork { left, key, right, .. } => {
            if x == key {
            } else if lt(x, key) {
                assert(!right.keys().contains(x));
                lemma_at(*left, x);
                lemma_subst_keys(*left, x, sub);
                assert forall|y: K| left.at(x).keys().contains(y) implies !right.keys().contains(
                    y,
                ) && y != key by {
                    assert(left.keys().contains(y));
                }
            } else {
                assert(!left.keys().contains(x));
                lemma_at(*right, x);
                lemma_subst_keys(*right, x, sub);
                assert forall|y: K| right.at(x).keys().contains(y) implies !left.keys().contains(
                    y,
                ) && y != key by {
                    assert(right.keys().contains(y));
                }
            }
        },
    }
}

/// Replacing a subtree by an ordered one that brings no new key keeps the
/// tree ordered.
pub proof fn lemma_subst_ordered<K: Ord + Clone>(t: Shape<K>, x: K, sub: Shape<K>)
    requires
        key_laws::<K>(),
        t.ordered(),
        t.keys().contains(x),
        sub.ordered(),
        sub.keys().subset_of(t.at(x).keys()),
    ensures
        t.subst(x, sub).ordered(),
    decreases t,
{
    lemma_order::<K>();
    match t {
        Shape::Nil => {},
        Shape::Fork { left, key, right, .. } => {
            if x == key {
            } else if lt(x, key) {
                assert(!right.keys().contains(x));
                lemma_at(*left, x);
                lemma_subst_keys(*left, x, sub);
                lemma_subst_ordered(*left, x, sub);
                assert forall|y: K| left.subst(x, sub).keys().contains(y) implies lt(y, key) by {
                    assert(left.keys().contains(y));
                }
            } else {
                assert(!left.keys().contains(x));
                lemma_at(*right, x);
                lemma_subst_keys(*right, x, sub);
                lemma_subst_ordered(*right, x, sub);
                assert forall|y: K| right.subst(x, sub).keys().contains(y) implies lt(key, y) by {
                    assert(right.keys().contains(y));
                }
            }
        },
    }
}

/// A balanced tree is in particular ready to be rebalanced along any path.
pub proof fn lemma_avl_almost<K: Ord + Clone>(t: Shape<K>, g: K)
    requires
        t.avl(),
    ensures
        t.almost(g),
    decreases t,
{
    match t {
        Shape::Nil => {},
        Shape::Fork { left, key, right, .. } => {
            lemma_avl_almost(*left, g);
            lemma_avl_almost(*right, g);
        },
    }
}

/// Replacing, in a balanced tree, the subtree at `x` by one of the same
/// recorded height that is ready to be rebalanced along the path for `g`
/// leaves the whole tree ready to be rebalanced along that path, provided `g`
/// belongs where `x` was.
pub proof fn lemma_subst_almost<K: Ord + Clone>(t: Shape<K>, x: K, sub: Shape<K>, g: K)
    requires
        key_laws::<K>(),
        t.ordered(),
        t.avl(),
        t.keys().contains(x),
        t.at(x).keys().contains(g),
        sub.almost(g),
        sub.ht() == t.at(x).ht(),
    ensures
        t.subst(x, sub).almost(g),
    decreases t,
{
    lemma_order::<K>();
    match t {
        Shape::Nil => {},
        Shape::Fork { left, key, right, .. } => {
            if x == key {
            } else if lt(x, key) {
                assert(!right.keys().contains(x));
                lemma_at(*left, x);
                lemma_subst_keys(*left, x, sub);
                lemma_subst_almost(*left, x, sub, g);
                assert(left.keys().contains(g));
            } else {
                assert(!left.keys().contains(x));
                lemma_at(*right, x);
                lemma_subst_keys(*right, x, sub);
                lemma_subst_almost(*right, x, sub, g);
                assert(right.keys().contains(g));
            }
        },
    }
}

/// Replacing the same subtree twice is replacing it once, by the later one.
pub proof fn lemma_subst_twice<K: Ord + Clone>(t: Shape<K>, x: K, s1: Shape<K>, s2: Shape<K>)
    requires
        key_laws::<K>(),
        t.ordered(),
        t.keys().contains(x),
        s1 is Fork,
        s1->key == x,
    ensures
        t.subst(x, s1).subst(x, s2) == t.subst(x, s2),
    decreases t,
{
    lemma_order::<K>();
    match t {
        Shape::Nil => {},
        Shape::Fork { left, key, right, .. } => {
            if x == key {
            } else if lt(x, key) {
                assert(!right.keys().contains(x));
                lemma_subst_twice(*left, x, s1, s2);
            } else {
                assert(!left.keys().contains(x));
                lemma_subst_twice(*right, x, s1, s2);
            }
        },
    }
}

/// The key above a key of the tree that is not at the root is a key of the
/// tree, and the two are not the same.
pub proof fn lemma_parent_key<K: Ord + Clone>(t: Shape<K>, x: K)
    requires
        key_laws::<K>(),
        t.ordered(),
        t.keys().contains(x),
    ensures
        t is Fork,
        t->key != x ==> t.parent_key(x).is_some() && t.keys().contains(t.parent_key(x).unwrap())
            && t.parent_key(x).unwrap() != x,
    decreases t,
{
    lemma_order::<K>();
    match t {
        Shape::Nil => {},
        Shape::Fork { left, key, right, .. } => {
            if x == key {
            } else if lt(x, key) {
                assert(!right.keys().contains(x));
                lemma_parent_key(*left, x);
            } else {
                assert(!left.keys().contains(x));
                lemma_parent_key(*right, x);
            }
        },
    }
}

/// The node above the node that holds `x` has the subtree rooted at `x` as its
/// child on the side of `x`.
pub proof fn lemma_parent_child<K: Ord + Clone>(t: Shape<K>, x: K)
    requires
        key_laws::<K>(),
        t.ordered(),
        t.keys().contains(x),
        t is Fork,
        t->key != x,
    ensures
        t.parent_key(x).is_some(),
        t.keys().contains(t.parent_key(x).unwrap()),
        t.at(t.parent_key(x).unwrap()) is Fork,
        t.at(t.parent_key(x).unwrap())->key == t.parent_key(x).unwrap(),
        t.parent_key(x).unwrap() != x,
        lt(x, t.parent_key(x).unwrap()) ==> *t.at(t.parent_key(x).unwrap())->left == t.at(x),
        lt(t.parent_key(x).unwrap(), x) ==> *t.at(t.parent_key(x).unwrap())->right == t.at(x),
    decreases t,
{
    lemma_order::<K>();
    match t {
        Shape::Nil => {},
        Shape::Fork { left, key, right, .. } => {
            if lt(x, key) {
                assert(!right.keys().contains(x));
                assert(left.keys().contains(x));
                if left->key == x {
                    assert(left.at(x) == *left);
                } else {
                    lemma_parent_child(*left, x);
                    let pk = left.parent_key(x).unwrap();
                    assert(lt(pk, key));
                }
            } else {
                assert(!left.keys().contains(x));
                assert(right.keys().contains(x));
                if right->key == x {
                    assert(right.at(x) == *right);
                } else {
                    lemma_parent_child(*right, x);
                    let pk = right.parent_key(x).unwrap();
                    assert(lt(key, pk));
                }
            }
        },
    }
}

/// The smallest key of an ordered tree sorts before all its other keys, and
/// its node has no left child.
pub proof fn lemma_min_key<K: Ord + Clone>(t: Shape<K>)
    requires
        key_laws::<K>(),
        t.ordered(),
        t is Fork,
    ensures
        t.min_key().is_some(),
        t.keys().contains(t.min_key().unwrap()),
        forall|y: K| #[trigger]
            t.keys().contains(y) ==> y == t.min_key().unwrap() || lt(t.min_key().unwrap(), y),
        t.at(t.min_key().unwrap()) is Fork,
        (*t.at(t.min_key().unwrap())->left) is Nil,
        t->key != t.min_key().unwrap() ==> t.parent_key(t.min_key().unwrap()).is_some() && lt(
            t.min_key().unwrap(),
            t.parent_key(t.min_key().unwrap()).unwrap(),
        ),
    decreases t,
{
    lemma_order::<K>();
    match t {
        Shape::Nil => {},
        Shape::Fork { left, key, right, .. } => {
            if *left is Nil {
                assert(left.keys() =~= Set::empty());
                assert forall|y: K| #[trigger] t.keys().contains(y) implies y == key || lt(
                    key,
                    y,
                ) by {
                    if y != key {
                        assert(right.keys().contains(y));
                    }
                }
            } else {
                lemma_min_key(*left);
                let m = left.min_key().unwrap();
                assert(lt(m, key));
                if left->key != m {
                    lemma_parent_child(*left, m);
                }
                assert forall|y: K| #[trigger] t.keys().contains(y) implies y == m || lt(m, y) by {
                    if y == key {
                    } else if left.keys().contains(y) {
                    } else {
                        assert(right.keys().contains(y));
                        assert(lt(key, y));
                    }
                }
            }
        },
    }
}

/// The largest key of an ordered tree sorts after all its other keys, and its
/// node has no right child.
pub proof fn lemma_max_key<K: Ord + Clone>(t: Shape<K>)
    requires
        key_laws::<K>(),
        t.ordered(),
        t is Fork,
    ensures
        t.max_key().is_some(),
        t.keys().contains(t.max_key().unwrap()),
        forall|y: K| #[trigger]
            t.keys().contains(y) ==> y == t.max_key().unwrap() || lt(y, t.max_key().unwrap()),
        t.at(t.max_key().unwrap()) is Fork,
        (*t.at(t.max_key().unwrap())->right) is Nil,
        t->key != t.max_key().unwrap() ==> t.parent_key(t.max_key().unwrap()).is_some() && lt(
            t.parent_key(t.max_key().unwrap()).unwrap(),
            t.max_key().unwrap(),
        ),
    decreases t,
{
    lemma_order::<K>();
    match t {
        Shape::Nil => {},
        Shape::Fork { left, key, right, .. } => {
            if *right is Nil {
                assert(right.keys() =~= Set::empty());
                assert forall|y: K| #[trigger] t.keys().contains(y) implies y == key || lt(
                    y,
                    key,
                ) by {
                    if y != key {
                        assert(left.keys().contains(y));
                    }
                }
            } else {
                lemma_max_key(*right);
                let m = right.max_key().unwrap();
                assert(lt(key, m));
                if right->key != m {
                    lemma_parent_child(*right, m);
                }
                assert forall|y: K| #[trigger] t.keys().contains(y) implies y == m || lt(y, m) by {
                    if y == key {
                    } else if right.keys().contains(y) {
                    } else {
                        assert(left.keys().contains(y));
                        assert(lt(y, key));
                    }
                }
            }
        },
    }
}

/// In a balanced tree the recorded height is the true height, and a tree of
/// that height has at least `min_nodes` of it nodes.
pub proof fn lemma_avl_height<K: Ord + Clone>(t: Shape<K>)
    requires
        t.avl(),
    ensures
        t.ht() == t.height(),
        t.ht() <= t.size(),
        min_nodes(t.ht()) <= t.size(),
    decreases t,
{
    match t {
        Shape::Nil => {},
        Shape::Fork { left, ht, right, .. } => {
            lemma_avl_height(*left);
            lemma_avl_height(*right);
            if left.ht() >= right.ht() {
                if left.ht() >= 1 {
                    lemma_min_nodes_monotonic((left.ht() - 1) as nat, right.ht());
                }
            } else {
                lemma_min_nodes_monotonic((right.ht() - 1) as nat, left.ht());
            }
        },
    }
}

/// A taller balanced tree needs no fewer nodes.
pub proof fn lemma_min_nodes_monotonic(a: nat, b: nat)
    requires
        a <= b,
    ensures
        min_nodes(a) <= min_nodes(b),
    decreases b,
{
    if a < b {
        if b >= 2 {
            lemma_min_nodes_monotonic(a, (b - 1) as nat);
        }
    }
}

/// An ordered tree has as many keys as nodes.
pub proof fn lemma_keys_len<K: Ord + Clone>(t: Shape<K>)
    requires
        key_laws::<K>(),
        t.ordered(),
    ensures
        t.keys().finite(),
        t.keys().len() == t.size(),
    decreases t,
{
    lemma_order::<K>();
    match t {
        Shape::Nil => {},
        Shape::Fork { left, key, right, .. } => {
            lemma_keys_len(*left);
            lemma_keys_len(*right);
            assert(left.keys().disjoint(right.keys())) by {
                assert forall|y: K| left.keys().contains(y) implies !right.keys().contains(y) by {}
            }
            vstd::set_lib::lemma_set_disjoint_lens(left.keys(), right.keys());
            assert(!left.keys().union(right.keys()).contains(key));
        },
    }
}

/// A rotation keeps the keys, their order and their number.
pub proof fn lemma_rot_right<K: Ord + Clone>(t: Shape<K>)
    requires
        key_laws::<K>(),
        t.ordered(),
        t is Fork,
        (*t->left) is Fork,
    ensures
        rot_right(t).ordered(),
        rot_right(t).keys() =~= t.keys(),
        rot_right(t).size() == t.size(),
{
    lemma_order::<K>();
    reveal_with_fuel(Shape::ordered, 3);
    reveal_with_fuel(Shape::keys, 3);
    reveal_with_fuel(Shape::size, 3);
    let l = *t->left;
    let x = t->key;
    let y = l->key;
    let r = *t->right;
    let down = fork(*l->right, x, r);
    assert(l.keys().contains(y));
    assert forall|k: K| #[trigger] l->right.keys().contains(k) implies lt(k, x) by {
        assert(l.keys().contains(k));
    }
    assert(down.ordered());
    assert(lt(y, x));
    assert forall|k: K| #[trigger] down.keys().contains(k) implies lt(y, k) by {
        if k == x {
        } else if l->right.keys().contains(k) {
        } else {
            assert(r.keys().contains(k));
            assert(lt(x, k));
        }
    }
    assert(l->left.ordered());
    assert(rot_right(t) == fork(*l->left, y, down));
}

/// A rotation keeps the keys, their order and their number.
pub proof fn lemma_rot_left<K: Ord + Clone>(t: Shape<K>)
    requires
        key_laws::<K>(),
        t.ordered(),
        t is Fork,
        (*t->right) is Fork,
    ensures
        rot_left(t).ordered(),
        rot_left(t).keys() =~= t.keys(),
        rot_left(t).size() == t.size(),
{
    lemma_order::<K>();
    reveal_with_fuel(Shape::ordered, 3);
    reveal_with_fuel(Shape::keys, 3);
    reveal_with_fuel(Shape::size, 3);
    let l = *t->left;
    let x = t->key;
    let r = *t->right;
    let y = r->key;
    let down = fork(l, x, *r->left);
    assert(r.keys().contains(y));
    assert forall|k: K| #[trigger] r->left.keys().contains(k) implies lt(x, k) by {
        assert(r.keys().contains(k));
    }
    assert(down.ordered());
    assert(lt(x, y));
    assert forall|k: K| #[trigger] down.keys().contains(k) implies lt(k, y) by {
        if k == x {
        } else if r->left.keys().contains(k) {
        } else {
            assert(l.keys().contains(k));
            assert(lt(k, x));
        }
    }
    assert(r->right.ordered());
    assert(rot_left(t) == fork(down, y, *r->right));
}

/// Searching a tree for the key at which a subtree was put in finds that
/// subtree.
pub proof fn lemma_at_subst<K: Ord + Clone>(t: Shape<K>, x: K, sub: Shape<K>)
    requires
        key_laws::<K>(),
        t.ordered(),
        t.keys().contains(x),
        sub is Fork,
        sub->key == x,
    ensures
        t.subst(x, sub).at(x) == sub,
    decreases t,
{
    lemma_order::<K>();
    match t {
        Shape::Nil => {},
        Shape::Fork { left, key, right, .. } => {
            if x == key {
            } else if lt(x, key) {
                assert(!right.keys().contains(x));
                lemma_at_subst(*left, x, sub);
            } else {
                assert(!left.keys().contains(x));
                lemma_at_subst(*right, x, sub);
            }
        },
    }
}

/// Replacing the subtree at `c` by an ordered one that has the same keys but
/// `x` takes `x` out of the tree and nothing else, and keeps the tree
/// ordered.
pub proof fn lemma_cut<K: Ord + Clone>(t: Shape<K>, c: K, sub: Shape<K>, x: K)
    requires
        key_laws::<K>(),
        t.ordered(),
        t.keys().contains(c),
        t.at(c).keys().contains(x),
        sub.ordered(),
        sub.keys() =~= t.at(c).keys().remove(x),
        sub.size() + 1 == t.at(c).size(),
    ensures
        t.subst(c, sub).ordered(),
        t.subst(c, sub).keys() =~= t.keys().remove(x),
        t.subst(c, sub).size() + 1 == t.size(),
{
    lemma_at(t, c);
    lemma_subst_keys(t, c, sub);
    lemma_subst_ordered(t, c, sub);
}

/// Replacing the subtree at `x` is replacing the subtree at the key above
/// `x` by itself with that one child replaced.
pub proof fn lemma_subst_child<K: Ord + Clone>(t: Shape<K>, x: K, sub: Shape<K>)
    requires
        key_laws::<K>(),
        t.ordered(),
        t.keys().contains(x),
        t is Fork,
        t->key != x,
    ensures
        t.parent_key(x).is_some(),
        t.subst(x, sub) == t.subst(
            t.parent_key(x).unwrap(),
            if lt(x, t.parent_key(x).unwrap()) {
                Shape::Fork {
                    left: Box::new(sub),
                    key: t.parent_key(x).unwrap(),
                    ht: t.at(t.parent_key(x).unwrap())->ht,
                    right: t.at(t.parent_key(x).unwrap())->right,
                }
            } else {
                Shape::Fork {
                    left: t.at(t.parent_key(x).unwrap())->left,
                    key: t.parent_key(x).unwrap(),
                    ht: t.at(t.parent_key(x).unwrap())->ht,
                    right: Box::new(sub),
                }
            },
        ),
    decreases t,
{
    lemma_order::<K>();
    match t {
        Shape::Nil => {},
        Shape::Fork { left, key, right, .. } => {
            if lt(x, key) {
                assert(!right.keys().contains(x));
                assert(left.keys().contains(x));
                if left->key == x {
                    assert(left.subst(x, sub) == sub);
                } else {
                    lemma_subst_child(*left, x, sub);
                    lemma_parent_key(*left, x);
                    let pk = left.parent_key(x).unwrap();
                    assert(lt(pk, key));
                }
            } else {
                assert(!left.keys().contains(x));
                assert(right.keys().contains(x));
                if right->key == x {
                    assert(right.subst(x, sub) == sub);
                } else {
                    lemma_subst_child(*right, x, sub);
                    lemma_parent_key(*right, x);
                    let pk = right.parent_key(x).unwrap();
                    assert(lt(key, pk));
                }
            }
        },
    }
}

} // verus!
