//! What holds of every well-formed index and of every map, stated for its
//! users.

use crate::balance::{balance_of, link_ht};
use crate::free_list::FreeListIndex;
use crate::link_lemmas::lemma_at_linked;
use crate::order::lt;
use crate::shape::{linked, max_nat, min_nodes};
use crate::shape_lemmas::{lemma_at, lemma_avl_height, lemma_keys_len};
use crate::tree::Tree;
use vstd::prelude::*;

verus! {

/// Search-tree order. In a well-formed index, the links below any occupied
/// slot spell out the subtree that a search for the key of that slot finds;
/// every key in its left part sorts before that key, and every key in its
/// right part sorts after it.
pub proof fn lemma_search_tree_order<K: Ord + Clone>(tree: Tree<K>, i: int)
    requires
        tree.wf(),
        0 <= i < tree.arena().len(),
    ensures
        tree@.contains(tree.arena()[i].key),
        tree.shape().at(tree.arena()[i].key) is Fork,
        linked(tree.arena(), Some(FreeListIndex(i as u32)), tree.shape().at(tree.arena()[i].key)),
        forall|y: K| #[trigger]
            tree.shape().at(tree.arena()[i].key)->left.keys().contains(y) ==> tree@.contains(y)
                && lt(y, tree.arena()[i].key),
        forall|y: K| #[trigger]
            tree.shape().at(tree.arena()[i].key)->right.keys().contains(y) ==> tree@.contains(y)
                && lt(tree.arena()[i].key, y),
{
    let x = tree.arena()[i].key;
    let sub = tree.shape().at(x);
    assert(tree.shape().keys().contains(x));
    lemma_at(tree.shape(), x);
    lemma_at_linked(tree.arena(), tree.root_link(), tree.shape(), i);
    assert forall|y: K| #[trigger] sub->left.keys().contains(y) implies tree@.contains(y) && lt(
        y,
        x,
    ) by {
        assert(sub.keys().contains(y));
    }
    assert forall|y: K| #[trigger] sub->right.keys().contains(y) implies tree@.contains(y) && lt(
        x,
        y,
    ) by {
        assert(sub.keys().contains(y));
    }
}

/// AVL balance. In a well-formed index, the balance factor of the node in
/// any occupied slot is -1, 0 or 1, and its height is one more than the
/// larger of the heights of its children.
pub proof fn lemma_balance<K: Ord + Clone>(tree: Tree<K>, i: int)
    requires
        tree.wf(),
        0 <= i < tree.arena().len(),
    ensures
        -1 <= balance_of(tree.arena(), tree.arena()[i]) <= 1,
        tree.arena()[i].ht == 1 + max_nat(
            link_ht(tree.arena(), tree.arena()[i].lft) as nat,
            link_ht(tree.arena(), tree.arena()[i].rgt) as nat,
        ),
{
    let a = tree.arena();
    let x = a[i].key;
    let sub = tree.shape().at(x);
    assert(tree.shape().keys().contains(x));
    lemma_at(tree.shape(), x);
    lemma_at_linked(a, tree.root_link(), tree.shape(), i);
    assert(linked(a, a[i].lft, *sub->left));
    assert(linked(a, a[i].rgt, *sub->right));
}

/// Height bound. A well-formed index is no higher than a balanced tree of
/// its number of keys can be: `min_nodes` of the height at its root, which
/// grows like the Fibonacci numbers, is at most the number of its keys. The
/// height on record at the root is the length of the longest path down.
pub proof fn lemma_height_bound<K: Ord + Clone>(tree: Tree<K>)
    requires
        tree.wf(),
    ensures
        link_ht(tree.arena(), tree.root_link()) == tree.shape().height(),
        min_nodes(tree.shape().height()) <= tree.arena().len(),
        tree@.finite(),
        tree@.len() == tree.arena().len(),
{
    lemma_avl_height(tree.shape());
    lemma_keys_len(tree.shape());
}

/// Round trip. A key that was just given a value has that value; a key that
/// was just removed has none; removing a key that has no value changes
/// nothing. This is stated of the views that `insert`, `remove` and `get`
/// are specified over.
pub proof fn lemma_round_trip<K, V>(m: Map<K, V>, k: K, v: V)
    ensures
        m.insert(k, v).contains_key(k),
        m.insert(k, v)[k] == v,
        !m.remove(k).contains_key(k),
        !m.contains_key(k) ==> m.remove(k) == m,
        forall|j: K| j != k ==> (#[trigger] m.insert(k, v).contains_key(j) == m.contains_key(j)),
        forall|j: K| j != k ==> (#[trigger] m.remove(k).contains_key(j) == m.contains_key(j)),
        forall|j: K| j != k && m.contains_key(j) ==> #[trigger] m.insert(k, v)[j] == m[j],
        forall|j: K| j != k && m.contains_key(j) ==> #[trigger] m.remove(k)[j] == m[j],
{
    if !m.contains_key(k) {
        assert(m.remove(k) =~= m);
    }
}

} // verus!
