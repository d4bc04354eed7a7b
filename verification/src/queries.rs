//! Reading the index: search, smallest and largest key, the neighbours of a
//! key. Each walks one path from the root down.

use crate::free_list::FreeListIndex;
use crate::node::expect;
use crate::order::{key_eq, key_laws, key_lt, lemma_order, lt};
use crate::shape::{linked, Shape};
use crate::shape_lemmas::{lemma_max_key, lemma_min_key, lemma_parent_key};
use crate::tree::Tree;
use vstd::prelude::*;

verus! {

impl<K: Ord + Clone> Tree<K> {
    /// Searches the index for `key`. Returns the slot of the node that holds
    /// it and the slot of the node above that one; the root counts as the
    /// node above itself. Returns nothing if the index does not hold `key`.
    pub fn lookup(&self, key: &K) -> (r: Option<(FreeListIndex, FreeListIndex)>)
        requires
            self.wf(),
        ensures
            r.is_some() == self@.contains(*key),
            match r {
                Some((n, p)) => {
                    &&& n.0 < self.arena().len()
                    &&& p.0 < self.arena().len()
                    &&& self.arena()[n.0 as int].key == *key
                    &&& self.root_link() == Some(n) ==> p == n
                    &&& self.root_link() != Some(n) ==> (if lt(*key, self.arena()[p.0 as int].key) {
                        self.arena()[p.0 as int].lft == Some(n)
                    } else {
                        self.arena()[p.0 as int].rgt == Some(n)
                    })
                },
                None => true,
            },
    {
        match self.root {
            None => {
                proof {
                    assert(self@ =~= Set::<K>::empty());
                }
                None
            },
            Some(root) => {
                let r = self.lookup_at(root, key, Ghost(self.shape@));
                proof {
                    if r.is_some() && self.shape@->key != *key {
                        lemma_parent_key(self.shape@, *key);
                    }
                }
                r
            },
        }
    }

    /// The smallest key of the index.
    pub fn min(&self) -> (r: Option<&K>)
        requires
            self.wf(),
        ensures
            match r {
                Some(k) => self@.contains(*k) && forall|y: K| #[trigger]
                    self@.contains(y) ==> y == *k || lt(*k, y),
                None => self@ == Set::<K>::empty(),
            },
    {
        match self.root {
            None => {
                assert(self@ =~= Set::<K>::empty());
                None
            },
            Some(root) => {
                proof {
                    lemma_min_key(self.shape@);
                }
                let (n, _) = self.min_at(root, root, Ghost(self.shape@));
                Some(&expect(self.node(n)).key)
            },
        }
    }

    /// The largest key of the index.
    pub fn max(&self) -> (r: Option<&K>)
        requires
            self.wf(),
        ensures
            match r {
                Some(k) => self@.contains(*k) && forall|y: K| #[trigger]
                    self@.contains(y) ==> y == *k || lt(y, *k),
                None => self@ == Set::<K>::empty(),
            },
    {
        match self.root {
            None => {
                assert(self@ =~= Set::<K>::empty());
                None
            },
            Some(root) => {
                proof {
                    lemma_max_key(self.shape@);
                }
                let (n, _) = self.max_at(root, root, Ghost(self.shape@));
                Some(&expect(self.node(n)).key)
            },
        }
    }

    /// The smallest key that sorts strictly after `key`.
    pub fn higher(&self, key: &K) -> (r: Option<&K>)
        requires
            self.wf(),
        ensures
            match r {
                Some(k) => self@.contains(*k) && lt(*key, *k) && forall|y: K| #[trigger]
                    self@.contains(y) && lt(*key, y) ==> y == *k || lt(*k, y),
                None => forall|y: K| #[trigger] self@.contains(y) ==> !lt(*key, y),
            },
    {
        match self.root {
            None => None,
            Some(root) => self.above_at(root, key, Ghost(self.shape@)),
        }
    }

    /// The largest key that sorts strictly before `key`.
    pub fn lower(&self, key: &K) -> (r: Option<&K>)
        requires
            self.wf(),
        ensures
            match r {
                Some(k) => self@.contains(*k) && lt(*k, *key) && forall|y: K| #[trigger]
                    self@.contains(y) && lt(y, *key) ==> y == *k || lt(y, *k),
                None => forall|y: K| #[trigger] self@.contains(y) ==> !lt(y, *key),
            },
    {
        match self.root {
            None => None,
            Some(root) => self.below_at(root, key, Ghost(self.shape@)),
        }
    }

    /// The node with the smallest key of the subtree `t` rooted in slot `at`,
    /// and the node above it. Where the root of `t` is that node, the node
    /// above it is `p`, which the caller names.
    pub(crate) fn min_at(&self, at: FreeListIndex, p: FreeListIndex, Ghost(t): Ghost<Shape<K>>) -> (r:
        (FreeListIndex, FreeListIndex))
        requires
            key_laws::<K>(),
            linked(self.nodes@, Some(at), t),
            t.ordered(),
        ensures
            r.0.0 < self.nodes@.len(),
            Some(self.nodes@[r.0.0 as int].key) == t.min_key(),
            self.nodes@[r.0.0 as int].lft.is_none(),
            t->key == t.min_key().unwrap() ==> r.0 == at && r.1 == p,
            t->key != t.min_key().unwrap() ==> r.1.0 < self.nodes@.len() && Some(
                self.nodes@[r.1.0 as int].key,
            ) == t.parent_key(t.min_key().unwrap()) && self.nodes@[r.1.0 as int].lft == Some(r.0),
    {
        let mut pos = at;
        let mut parent = p;
        let ghost mut cur = t;
        proof {
            lemma_order::<K>();
            lemma_min_key(t);
        }
        let ghost m = t.min_key().unwrap();
        loop
            invariant
                key_laws::<K>(),
                linked(self.nodes@, Some(pos), cur),
                cur is Fork,
                cur.ordered(),
                cur.min_key() == Some(m),
                t.min_key() == Some(m),
                cur->key == m ==> (if t->key == m {
                    pos == at && parent == p
                } else {
                    parent.0 < self.nodes@.len() && Some(self.nodes@[parent.0 as int].key)
                        == t.parent_key(m) && self.nodes@[parent.0 as int].lft == Some(pos)
                }),
                cur->key != m ==> t->key != m && t.parent_key(m) == cur.parent_key(m),
            ensures
                pos.0 < self.nodes@.len(),
                self.nodes@[pos.0 as int].key == m,
                self.nodes@[pos.0 as int].lft.is_none(),
                if t->key == m {
                    pos == at && parent == p
                } else {
                    parent.0 < self.nodes@.len() && Some(self.nodes@[parent.0 as int].key)
                        == t.parent_key(m) && self.nodes@[parent.0 as int].lft == Some(pos)
                },
            decreases cur.size(),
        {
            let node = expect(self.nodes.get(pos));
            match node.lft {
                Some(lft) => {
                    proof {
                        lemma_order::<K>();
                        let below = *cur->left;
                        assert(linked(self.nodes@, node.lft, below));
                        lemma_min_key(cur);
                        lemma_min_key(below);
                        assert(cur.keys().contains(cur->key));
                        assert(below.keys().contains(m));
                        assert(lt(m, cur->key));
                        cur = below;
                    }
                    parent = pos;
                    pos = lft;
                },
                None => {
                    proof {
                        assert(linked(self.nodes@, node.lft, *cur->left));
                    }
                    break ;
                },
            }
        }
        (pos, parent)
    }

    /// The node with the largest key of the subtree `t` rooted in slot `at`,
    /// and the node above it. Where the root of `t` is that node, the node
    /// above it is `p`, which the caller names.
    pub(crate) fn max_at(&self, at: FreeListIndex, p: FreeListIndex, Ghost(t): Ghost<Shape<K>>) -> (r:
        (FreeListIndex, FreeListIndex))
        requires
            key_laws::<K>(),
            linked(self.nodes@, Some(at), t),
            t.ordered(),
        ensures
            r.0.0 < self.nodes@.len(),
            Some(self.nodes@[r.0.0 as int].key) == t.max_key(),
            self.nodes@[r.0.0 as int].rgt.is_none(),
            t->key == t.max_key().unwrap() ==> r.0 == at && r.1 == p,
            t->key != t.max_key().unwrap() ==> r.1.0 < self.nodes@.len() && Some(
                self.nodes@[r.1.0 as int].key,
            ) == t.parent_key(t.max_key().unwrap()) && self.nodes@[r.1.0 as int].rgt == Some(r.0),
    {
        let mut pos = at;
        let mut parent = p;
        let ghost mut cur = t;
        proof {
            lemma_order::<K>();
            lemma_max_key(t);
        }
        let ghost m = t.max_key().unwrap();
        loop
            invariant
                key_laws::<K>(),
                linked(self.nodes@, Some(pos), cur),
                cur is Fork,
                cur.ordered(),
                cur.max_key() == Some(m),
                t.max_key() == Some(m),
                cur->key == m ==> (if t->key == m {
                    pos == at && parent == p
                } else {
                    parent.0 < self.nodes@.len() && Some(self.nodes@[parent.0 as int].key)
                        == t.parent_key(m) && self.nodes@[parent.0 as int].rgt == Some(pos)
                }),
                cur->key != m ==> t->key != m && t.parent_key(m) == cur.parent_key(m),
            ensures
                pos.0 < self.nodes@.len(),
                self.nodes@[pos.0 as int].key == m,
                self.nodes@[pos.0 as int].rgt.is_none(),
                if t->key == m {
                    pos == at && parent == p
                } else {
                    parent.0 < self.nodes@.len() && Some(self.nodes@[parent.0 as int].key)
                        == t.parent_key(m) && self.nodes@[parent.0 as int].rgt == Some(pos)
                },
            decreases cur.size(),
        {
            let node = expect(self.nodes.get(pos));
            match node.rgt {
                Some(rgt) => {
                    proof {
                        lemma_order::<K>();
                        let below = *cur->right;
                        assert(linked(self.nodes@, node.rgt, below));
                        lemma_max_key(cur);
                        lemma_max_key(below);
                        assert(cur.keys().contains(cur->key));
                        assert(below.keys().contains(m));
                        assert(lt(cur->key, m));
                        cur = below;
                    }
                    parent = pos;
                    pos = rgt;
                },
                None => {
                    proof {
                        assert(linked(self.nodes@, node.rgt, *cur->right));
                    }
                    break ;
                },
            }
        }
        (pos, parent)
    }

    /// The smallest key of the subtree `t` rooted in slot `at` that sorts
    /// strictly after `key`.
    pub(crate) fn above_at(&self, at: FreeListIndex, key: &K, Ghost(t): Ghost<Shape<K>>) -> (r: Option<
        &K,
    >)
        requires
            key_laws::<K>(),
            linked(self.nodes@, Some(at), t),
            t.ordered(),
        ensures
            match r {
                Some(k) => t.keys().contains(*k) && lt(*key, *k) && forall|y: K| #[trigger]
                    t.keys().contains(y) && lt(*key, y) ==> y == *k || lt(*k, y),
                None => forall|y: K| #[trigger] t.keys().contains(y) ==> !lt(*key, y),
            },
    {
        let mut link = Some(at);
        let mut seen: Option<&K> = None;
        let ghost mut cur = t;
        proof {
            lemma_order::<K>();
        }
        while link.is_some()
            invariant
                key_laws::<K>(),
                linked(self.nodes@, link, cur),
                cur.ordered(),
                cur.keys().subset_of(t.keys()),
                forall|y: K| #[trigger]
                    t.keys().contains(y) && lt(*key, y) ==> cur.keys().contains(y) || (
                    seen.is_some() && (y == *seen.unwrap() || lt(*seen.unwrap(), y))),
                seen.is_some() ==> t.keys().contains(*seen.unwrap()) && lt(*key, *seen.unwrap())
                    && forall|y: K| #[trigger] cur.keys().contains(y) ==> lt(y, *seen.unwrap()),
            decreases cur.size(),
        {
            let id = link.unwrap();
            let node = expect(self.nodes.get(id));
            proof {
                lemma_order::<K>();
                assert(linked(self.nodes@, node.lft, *cur->left));
                assert(linked(self.nodes@, node.rgt, *cur->right));
                assert(cur.keys().contains(cur->key));
            }
            if key_lt(key, &node.key) {
                proof {
                    let below = *cur->left;
                    assert forall|y: K| #[trigger] t.keys().contains(y) && lt(
                        *key,
                        y,
                    ) implies below.keys().contains(y) || y == node.key || lt(node.key, y) by {
                        if cur.keys().contains(y) {
                            if y != node.key && !below.keys().contains(y) {
                                assert(cur->right.keys().contains(y));
                            }
                        } else {
                            assert(lt(node.key, *seen.unwrap()));
                        }
                    }
                    assert(t.keys().contains(node.key));
                    assert forall|y: K| #[trigger] below.keys().contains(y) implies lt(
                        y,
                        node.key,
                    ) by {}
                    cur = below;
                }
                seen = Some(&node.key);
                link = node.lft;
            } else {
                proof {
                    let below = *cur->right;
                    assert forall|y: K| #[trigger] t.keys().contains(y) && lt(
                        *key,
                        y,
                    ) implies below.keys().contains(y) || (seen.is_some() && (y == *seen.unwrap()
                        || lt(*seen.unwrap(), y))) by {
                        if cur.keys().contains(y) {
                            if y != node.key && !below.keys().contains(y) {
                                assert(cur->left.keys().contains(y));
                                assert(lt(y, node.key));
                            }
                        }
                    }
                    if seen.is_some() {
                        assert forall|y: K| #[trigger] below.keys().contains(y) implies lt(
                            y,
                            *seen.unwrap(),
                        ) by {
                            assert(cur.keys().contains(y));
                        }
                    }
                    cur = below;
                }
                link = node.rgt;
            }
        }
        proof {
            assert(cur.keys() =~= Set::<K>::empty());
        }
        seen
    }

    /// The largest key of the subtree `t` rooted in slot `at` that sorts
    /// strictly before `key`.
    pub(crate) fn below_at(&self, at: FreeListIndex, key: &K, Ghost(t): Ghost<Shape<K>>) -> (r: Option<
        &K,
    >)
        requires
            key_laws::<K>(),
            linked(self.nodes@, Some(at), t),
            t.ordered(),
        ensures
            match r {
                Some(k) => t.keys().contains(*k) && lt(*k, *key) && forall|y: K| #[trigger]
                    t.keys().contains(y) && lt(y, *key) ==> y == *k || lt(y, *k),
                None => forall|y: K| #[trigger] t.keys().contains(y) ==> !lt(y, *key),
            },
    {
        let mut link = Some(at);
        let mut seen: Option<&K> = None;
        let ghost mut cur = t;
        proof {
            lemma_order::<K>();
        }
        while link.is_some()
            invariant
                key_laws::<K>(),
                linked(self.nodes@, link, cur),
                cur.ordered(),
                cur.keys().subset_of(t.keys()),
                forall|y: K| #[trigger]
                    t.keys().contains(y) && lt(y, *key) ==> cur.keys().contains(y) || (
                    seen.is_some() && (y == *seen.unwrap() || lt(y, *seen.unwrap()))),
                seen.is_some() ==> t.keys().contains(*seen.unwrap()) && lt(*seen.unwrap(), *key)
                    && forall|y: K| #[trigger] cur.keys().contains(y) ==> lt(*seen.unwrap(), y),
            decreases cur.size(),
        {
            let id = link.unwrap();
            let node = expect(self.nodes.get(id));
            proof {
                lemma_order::<K>();
                assert(linked(self.nodes@, node.lft, *cur->left));
                assert(linked(self.nodes@, node.rgt, *cur->right));
                assert(cur.keys().contains(cur->key));
            }
            if key_lt(&node.key, key) {
                proof {
                    let below = *cur->right;
                    assert forall|y: K| #[trigger] t.keys().contains(y) && lt(
                        y,
                        *key,
                    ) implies below.keys().contains(y) || y == node.key || lt(y, node.key) by {
                        if cur.keys().contains(y) {
                            if y != node.key && !below.keys().contains(y) {
                                assert(cur->left.keys().contains(y));
                            }
                        } else {
                            assert(lt(*seen.unwrap(), node.key));
                        }
                    }
                    assert(t.keys().contains(node.key));
                    assert forall|y: K| #[trigger] below.keys().contains(y) implies lt(
                        node.key,
                        y,
                    ) by {}
                    cur = below;
                }
                seen = Some(&node.key);
                link = node.rgt;
            } else {
                proof {
                    let below = *cur->left;
                    assert forall|y: K| #[trigger] t.keys().contains(y) && lt(
                        y,
                        *key,
                    ) implies below.keys().contains(y) || (seen.is_some() && (y == *seen.unwrap()
                        || lt(y, *seen.unwrap()))) by {
                        if cur.keys().contains(y) {
                            if y != node.key && !below.keys().contains(y) {
                                assert(cur->right.keys().contains(y));
                                assert(lt(node.key, y));
                            }
                        }
                    }
                    if seen.is_some() {
                        assert forall|y: K| #[trigger] below.keys().contains(y) implies lt(
                            *seen.unwrap(),
                            y,
                        ) by {
                            assert(cur.keys().contains(y));
                        }
                    }
                    cur = below;
                }
                link = node.lft;
            }
        }
        proof {
            assert(cur.keys() =~= Set::<K>::empty());
        }
        seen
    }

    /// Searches the subtree `t` rooted in slot `at` for `key`. Returns the
    /// slot of the node that holds it and the slot of the node above that
    /// one; where the root of `t` holds `key`, both are `at`. Returns nothing
    /// if `key` is not in `t`.
    pub(crate) fn lookup_at(&self, at: FreeListIndex, key: &K, Ghost(t): Ghost<Shape<K>>) -> (r: Option<
        (FreeListIndex, FreeListIndex),
    >)
        requires
            key_laws::<K>(),
            linked(self.nodes@, Some(at), t),
            t.ordered(),
        ensures
            r.is_some() == t.keys().contains(*key),
            match r {
                Some((n, p)) => {
                    &&& n.0 < self.nodes@.len()
                    &&& p.0 < self.nodes@.len()
                    &&& self.nodes@[n.0 as int].key == *key
                    &&& t->key == *key ==> n == at && p == at
                    &&& t->key != *key ==> Some(self.nodes@[p.0 as int].key) == t.parent_key(*key)
                        && (if lt(*key, self.nodes@[p.0 as int].key) {
                        self.nodes@[p.0 as int].lft == Some(n)
                    } else {
                        self.nodes@[p.0 as int].rgt == Some(n)
                    })
                },
                None => true,
            },
    {
        let mut link = Some(at);
        let mut parent = at;
        let mut found: Option<(FreeListIndex, FreeListIndex)> = None;
        let ghost mut cur = t;
        proof {
            lemma_order::<K>();
        }
        while link.is_some() && found.is_none()
            invariant
                key_laws::<K>(),
                linked(self.nodes@, link, cur),
                linked(self.nodes@, Some(at), t),
                t is Fork,
                cur.ordered(),
                t.ordered(),
                parent.0 < self.nodes@.len(),
                found.is_none() ==> (t.keys().contains(*key) <==> cur.keys().contains(*key)),
                found.is_none() && cur is Fork && cur->key == *key ==> (if t->key == *key {
                    link == Some(at) && parent == at
                } else {
                    Some(self.nodes@[parent.0 as int].key) == t.parent_key(*key) && (if lt(
                        *key,
                        self.nodes@[parent.0 as int].key,
                    ) {
                        self.nodes@[parent.0 as int].lft == link
                    } else {
                        self.nodes@[parent.0 as int].rgt == link
                    })
                }),
                found.is_none() && cur is Fork && cur->key != *key ==> t->key != *key
                    && t.parent_key(*key) == cur.parent_key(*key),
                found.is_some() ==> {
                    let (n, p) = found.unwrap();
                    &&& t.keys().contains(*key)
                    &&& n.0 < self.nodes@.len()
                    &&& p.0 < self.nodes@.len()
                    &&& self.nodes@[n.0 as int].key == *key
                    &&& t->key == *key ==> n == at && p == at
                    &&& t->key != *key ==> Some(self.nodes@[p.0 as int].key) == t.parent_key(*key)
                        && (if lt(*key, self.nodes@[p.0 as int].key) {
                        self.nodes@[p.0 as int].lft == Some(n)
                    } else {
                        self.nodes@[p.0 as int].rgt == Some(n)
                    })
                },
            decreases cur.size() + (if found.is_none() { 1nat } else { 0nat }),
        {
            let id = link.unwrap();
            let node = expect(self.nodes.get(id));
            proof {
                lemma_order::<K>();
                assert(linked(self.nodes@, node.lft, *cur->left));
                assert(linked(self.nodes@, node.rgt, *cur->right));
                assert(cur.keys().contains(cur->key));
            }
            if key_eq(&node.key, key) {
                found = Some((id, parent));
            } else if key_lt(&node.key, key) {
                proof {
                    let below = *cur->right;
                    assert(!cur->left.keys().contains(*key));
                    cur = below;
                }
                parent = id;
                link = node.rgt;
            } else {
                proof {
                    let below = *cur->left;
                    assert(!cur->right.keys().contains(*key));
                    cur = below;
                }
                parent = id;
                link = node.lft;
            }
        }
        proof {
            if found.is_none() {
                assert(cur.keys() =~= Set::<K>::empty());
            }
        }
        found
    }
}

} // verus!
