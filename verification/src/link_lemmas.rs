//! Facts that tie shapes to arenas: what a change to the arena leaves linked.

use crate::free_list::FreeListIndex;
use crate::node::Node;
use crate::order::{key_laws, lemma_order, lt};
use crate::shape::{distinct_keys, keys_of, linked, Shape};
use crate::shape_lemmas::{lemma_at, lemma_parent_key};
use vstd::prelude::*;

verus! {

/// `link`, redirected from slot `from` to slot `to` if it pointed there.
pub open spec fn moved(link: Option<FreeListIndex>, from: int, to: int) -> Option<FreeListIndex> {
    match link {
        Some(id) => if id.0 == from {
            Some(FreeListIndex(to as u32))
        } else {
            link
        },
        None => None,
    }
}

/// `n` with both its links redirected from slot `from` to slot `to`.
pub open spec fn relinked<K>(n: Node<K>, from: int, to: int) -> Node<K> {
    Node { key: n.key, lft: moved(n.lft, from, to), rgt: moved(n.rgt, from, to), ht: n.ht }
}

/// Where no key is held twice, a key is found in the slot that holds it.
pub proof fn lemma_slot_of_key<K>(a: Seq<Node<K>>, i: int)
    requires
        distinct_keys(a),
        0 <= i < a.len(),
    ensures
        keys_of(a).index_of(a[i].key) == i,
{
    let s = keys_of(a);
    assert(s[i] == a[i].key);
    let j = s.index_of(a[i].key);
    assert(0 <= j < s.len() && s[j] == a[i].key);
}

/// A tree stays linked when the slots that hold its keys stay as they are.
pub proof fn lemma_frame<K>(a: Seq<Node<K>>, b: Seq<Node<K>>, link: Option<FreeListIndex>, t: Shape<K>)
    requires
        linked(a, link, t),
        forall|j: int|
            0 <= j < a.len() && t.keys().contains(#[trigger] a[j].key) ==> j < b.len() && b[j]
                == a[j],
    ensures
        linked(b, link, t),
    decreases t,
{
    match t {
        Shape::Nil => {},
        Shape::Fork { left, key, right, .. } => {
            let i = link.unwrap().0 as int;
            assert(t.keys().contains(a[i].key));
            lemma_frame(a, b, a[i].lft, *left);
            lemma_frame(a, b, a[i].rgt, *right);
        },
    }
}

/// The keys of a linked tree are keys of the arena.
pub proof fn lemma_linked_key<K>(a: Seq<Node<K>>, link: Option<FreeListIndex>, t: Shape<K>, x: K)
    requires
        linked(a, link, t),
        t.keys().contains(x),
    ensures
        exists|j: int| 0 <= j < a.len() && #[trigger] a[j].key == x,
    decreases t,
{
    match t {
        Shape::Nil => {},
        Shape::Fork { left, key, right, .. } => {
            let i = link.unwrap().0 as int;
            if x == key {
                assert(a[i].key == x);
            } else if left.keys().contains(x) {
                lemma_linked_key(a, a[i].lft, *left, x);
            } else {
                lemma_linked_key(a, a[i].rgt, *right, x);
            }
        },
    }
}

/// The subtree rooted at the key of slot `j` is linked from slot `j`.
pub proof fn lemma_at_linked<K: Ord + Clone>(
    a: Seq<Node<K>>,
    link: Option<FreeListIndex>,
    t: Shape<K>,
    j: int,
)
    requires
        key_laws::<K>(),
        linked(a, link, t),
        t.ordered(),
        distinct_keys(a),
        0 <= j < a.len(),
        t.keys().contains(a[j].key),
    ensures
        linked(a, Some(FreeListIndex(j as u32)), t.at(a[j].key)),
    decreases t,
{
    lemma_order::<K>();
    let x = a[j].key;
    match t {
        Shape::Nil => {},
        Shape::Fork { left, key, right, .. } => {
            let i = link.unwrap().0 as int;
            if x == key {
                assert(i == j);
            } else if lt(x, key) {
                assert(!right.keys().contains(x));
                lemma_at_linked(a, a[i].lft, *left, j);
            } else {
                assert(!left.keys().contains(x));
                lemma_at_linked(a, a[i].rgt, *right, j);
            }
        },
    }
}

/// Replacing a subtree in the arena replaces it in the shape: if arena `b`
/// holds `sub` where arena `a` held the subtree rooted at the key of slot `r`,
/// and the two arenas agree on the rest of the tree, then `b` holds the tree
/// with that subtree replaced.
pub proof fn lemma_subst_linked<K: Ord + Clone>(
    a: Seq<Node<K>>,
    b: Seq<Node<K>>,
    link: Option<FreeListIndex>,
    t: Shape<K>,
    r: int,
    sub: Shape<K>,
)
    requires
        key_laws::<K>(),
        linked(a, link, t),
        t.ordered(),
        distinct_keys(a),
        0 <= r < a.len(),
        t.keys().contains(a[r].key),
        linked(b, Some(FreeListIndex(r as u32)), sub),
        forall|j: int|
            0 <= j < a.len() && t.keys().contains(#[trigger] a[j].key) && !t.at(
                a[r].key,
            ).keys().contains(a[j].key) ==> j < b.len() && b[j] == a[j],
    ensures
        linked(b, link, t.subst(a[r].key, sub)),
    decreases t,
{
    lemma_order::<K>();
    let x = a[r].key;
    match t {
        Shape::Nil => {},
        Shape::Fork { left, key, right, .. } => {
            let i = link.unwrap().0 as int;
            if x == key {
                assert(i == r);
            } else if lt(x, key) {
                assert(!right.keys().contains(x));
                lemma_at(*left, x);
                assert(!left.keys().contains(key));
                assert(t.keys().contains(a[i].key));
                assert(b[i] == a[i]);
                lemma_subst_linked(a, b, a[i].lft, *left, r, sub);
                assert forall|j: int|
                    0 <= j < a.len() && right.keys().contains(#[trigger] a[j].key) implies j
                    < b.len() && b[j] == a[j] by {
                    assert(!left.keys().contains(a[j].key));
                }
                lemma_frame(a, b, a[i].rgt, *right);
            } else {
                assert(!left.keys().contains(x));
                lemma_at(*right, x);
                assert(!right.keys().contains(key));
                assert(t.keys().contains(a[i].key));
                assert(b[i] == a[i]);
                lemma_subst_linked(a, b, a[i].rgt, *right, r, sub);
                assert forall|j: int|
                    0 <= j < a.len() && left.keys().contains(#[trigger] a[j].key) implies j
                    < b.len() && b[j] == a[j] by {
                    assert(!right.keys().contains(a[j].key));
                }
                lemma_frame(a, b, a[i].lft, *left);
            }
        },
    }
}

/// Moving the node of the highest slot into a slot that the tree does not
/// use, and redirecting the one link that led to it, leaves the tree linked.
///
/// `q` is the slot of the node above the moved one; it is not looked at where
/// the moved node is the root of `t`.
pub proof fn lemma_relocate<K: Ord + Clone>(
    a: Seq<Node<K>>,
    b: Seq<Node<K>>,
    link: Option<FreeListIndex>,
    t: Shape<K>,
    s: int,
    q: int,
)
    requires
        key_laws::<K>(),
        linked(a, link, t),
        t.ordered(),
        distinct_keys(a),
        0 <= s < a.len() - 1,
        !t.keys().contains(a[s].key),
        t.keys().contains(a[a.len() - 1].key),
        b.len() == a.len() - 1,
        b[s] == a[a.len() - 1],
        t is Fork,
        t->key == a[a.len() - 1].key ==> (0 <= q < a.len() ==> !t.keys().contains(a[q].key)),
        t->key != a[a.len() - 1].key ==> 0 <= q < a.len() - 1 && q != s && t.parent_key(
            a[a.len() - 1].key,
        ) == Some(a[q].key) && b[q] == relinked(a[q], a.len() - 1, s),
        forall|j: int| 0 <= j < a.len() - 1 && j != s && j != q ==> #[trigger] b[j] == a[j],
    ensures
        linked(b, moved(link, a.len() - 1, s), t),
    decreases t,
{
    lemma_order::<K>();
    let last = a.len() - 1;
    let kl = a[last].key;
    match t {
        Shape::Nil => {},
        Shape::Fork { left, key, right, .. } => {
            let i = link.unwrap().0 as int;
            if key == kl {
                assert(i == last);
                assert forall|j: int|
                    0 <= j < a.len() && left.keys().contains(#[trigger] a[j].key) implies j
                    < b.len() && b[j] == a[j] by {
                    assert(t.keys().contains(a[j].key));
                }
                lemma_frame(a, b, a[i].lft, *left);
                assert forall|j: int|
                    0 <= j < a.len() && right.keys().contains(#[trigger] a[j].key) implies j
                    < b.len() && b[j] == a[j] by {
                    assert(t.keys().contains(a[j].key));
                }
                lemma_frame(a, b, a[i].rgt, *right);
            } else if lt(kl, key) {
                assert(!right.keys().contains(kl));
                assert(left.keys().contains(kl));
                assert(t.keys().contains(a[i].key));
                lemma_parent_key(*left, kl);
                assert(linked(a, a[i].lft, *left));
                assert(linked(a, a[i].rgt, *right));
                let c = a[i].lft.unwrap().0 as int;
                if left->key == kl {
                    assert(q == i);
                    assert(c == last);
                } else {
                    assert(q != i);
                    assert(c != last);
                }
                if a[i].rgt.is_some() && a[i].rgt.unwrap().0 == last {
                    assert(right.keys().contains(right->key));
                }
                assert(b[i].lft == moved(a[i].lft, last, s));
                assert(b[i].rgt == a[i].rgt);
                lemma_relocate(a, b, a[i].lft, *left, s, q);
                assert forall|j: int|
                    0 <= j < a.len() && right.keys().contains(#[trigger] a[j].key) implies j
                    < b.len() && b[j] == a[j] by {
                    assert(t.keys().contains(a[j].key));
                    assert(!left.keys().contains(a[j].key));
                }
                lemma_frame(a, b, a[i].rgt, *right);
            } else {
                assert(!left.keys().contains(kl));
                assert(right.keys().contains(kl));
                assert(t.keys().contains(a[i].key));
                lemma_parent_key(*right, kl);
                assert(linked(a, a[i].lft, *left));
                assert(linked(a, a[i].rgt, *right));
                let c = a[i].rgt.unwrap().0 as int;
                if right->key == kl {
                    assert(q == i);
                    assert(c == last);
                } else {
                    assert(q != i);
                    assert(c != last);
                }
                if a[i].lft.is_some() && a[i].lft.unwrap().0 == last {
                    assert(left.keys().contains(left->key));
                }
                assert(b[i].rgt == moved(a[i].rgt, last, s));
                assert(b[i].lft == a[i].lft);
                lemma_relocate(a, b, a[i].rgt, *right, s, q);
                assert forall|j: int|
                    0 <= j < a.len() && left.keys().contains(#[trigger] a[j].key) implies j
                    < b.len() && b[j] == a[j] by {
                    assert(t.keys().contains(a[j].key));
                    assert(!right.keys().contains(a[j].key));
                }
                lemma_frame(a, b, a[i].lft, *left);
            }
        },
    }
}

} // verus!
