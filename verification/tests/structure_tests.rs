use std::collections::BTreeMap;
use tree_map::order::{key_clone, key_eq, key_lt};
use tree_map::{expect, FreeList, FreeListIndex, LookupMap, Node, Tree, TreeMap};

fn new_map() -> TreeMap<u32, u32> {
    TreeMap::new(vec![b'p'])
}

fn height(map: &TreeMap<u32, u32>) -> u32 {
    map.tree().root().and_then(|root| map.tree().node(root)).map(|n| n.ht).unwrap_or_default()
}

fn link_height(tree: &Tree<u32>, link: Option<FreeListIndex>) -> u32 {
    link.and_then(|id| tree.node(id)).map(|n| n.ht).unwrap_or(0)
}

/// Collects the keys below `link` in order, checking on the way that every
/// link leads to an occupied slot and that no slot is reached twice.
fn in_order(tree: &Tree<u32>, link: Option<FreeListIndex>, seen: &mut Vec<bool>, out: &mut Vec<u32>) {
    if let Some(id) = link {
        let node = tree.node(id).expect("a link leads to an occupied slot");
        assert!(!seen[id.0 as usize], "slot {} is reached twice", id.0);
        seen[id.0 as usize] = true;
        in_order(tree, node.lft, seen, out);
        out.push(node.key);
        in_order(tree, node.rgt, seen, out);
    }
}

/// Checks everything the invariant of the index says, on a concrete map.
fn check_invariant(map: &TreeMap<u32, u32>) {
    let tree = map.tree();
    let len = tree.nodes().len();
    let mut seen = vec![false; len as usize];
    let mut keys = Vec::new();
    in_order(tree, tree.root(), &mut seen, &mut keys);
    assert!(seen.iter().all(|s| *s), "every occupied slot is a node of the tree");
    assert_eq!(keys.len() as u32, len);
    for pair in keys.windows(2) {
        assert!(pair[0] < pair[1], "keys in order: {} before {}", pair[0], pair[1]);
    }
    for i in 0..len {
        let node = tree.node(FreeListIndex(i)).unwrap();
        let lft = link_height(tree, node.lft);
        let rgt = link_height(tree, node.rgt);
        assert_eq!(node.ht, 1 + lft.max(rgt));
        let balance = tree.get_balance(node);
        assert_eq!(balance, lft as i64 - rgt as i64);
        assert!((-1..=1).contains(&balance));
        assert!(map.contains_key(&node.key));
    }
    assert_eq!(map.len(), len);
    assert_eq!(tree.node(FreeListIndex(len)).map(|n| n.key), None);
}

fn min_nodes(h: u32) -> u64 {
    match h {
        0 => 0,
        1 => 1,
        _ => 1 + min_nodes(h - 1) + min_nodes(h - 2),
    }
}

fn max_tree_height(n: u32) -> u32 {
    let h = 1.440f64 * f64::log(n as f64 + 1.065f64, 2.0f64) - 0.328f64;
    h.ceil() as u32
}

/// A fixed sequence of numbers below `modulus` that looks shuffled.
fn sequence(count: u32, modulus: u32) -> Vec<u32> {
    let mut state: u64 = 0x2545_f491_4f6c_dd1d;
    let mut out = Vec::new();
    for _ in 0..count {
        state = state.wrapping_mul(6364136223846793005).wrapping_add(1442695040888963407);
        out.push(((state >> 33) as u32) % modulus);
    }
    out
}

fn snapshot(map: &TreeMap<u32, u32>) -> (Option<FreeListIndex>, Vec<(u32, Option<u32>, Option<u32>, u32)>) {
    let tree = map.tree();
    let mut nodes = Vec::new();
    for i in 0..tree.nodes().len() {
        let n = tree.node(FreeListIndex(i)).unwrap();
        nodes.push((n.key, n.lft.map(|l| l.0), n.rgt.map(|r| r.0), n.ht));
    }
    (tree.root(), nodes)
}

#[test]
fn order_holds_through_inserts_and_removes() {
    let mut map = new_map();
    for (i, k) in sequence(200, 64).into_iter().enumerate() {
        if i % 3 == 2 {
            map.remove(&k);
        } else {
            map.insert(k, i as u32);
        }
        check_invariant(&map);
    }
}

#[test]
fn balance_holds_when_removals_rotate_at_several_levels() {
    let mut map = new_map();
    for k in 0..64 {
        map.insert(k, k);
    }
    check_invariant(&map);
    for k in 0..64 {
        map.remove(&k);
        check_invariant(&map);
    }
    assert!(map.is_empty());
}

#[test]
fn height_stays_within_the_bound() {
    let mut map = new_map();
    for k in 0..500 {
        map.insert(k, 0);
        let h = height(&map);
        assert!(min_nodes(h) <= map.len() as u64);
        assert!(h <= max_tree_height(map.len()));
    }
    assert_eq!(height(&map), 9);
    for k in 0..250 {
        map.remove(&(2 * k));
        let h = height(&map);
        assert!(min_nodes(h) <= map.len() as u64);
        assert!(h <= max_tree_height(map.len()));
    }
}

#[test]
fn entries_equal_those_of_a_reference_map() {
    let mut map = new_map();
    let mut reference: BTreeMap<u32, u32> = BTreeMap::new();
    for (i, k) in sequence(400, 97).into_iter().enumerate() {
        let v = i as u32;
        if i % 5 < 3 {
            assert_eq!(map.insert(k, v), reference.insert(k, v));
        } else {
            assert_eq!(map.remove(&k), reference.remove(&k));
        }
        assert_eq!(map.len() as usize, reference.len());
    }
    let mut entries = map.iter();
    entries.sort();
    let expected: Vec<(&u32, &u32)> = reference.iter().collect();
    assert_eq!(entries, expected);
    for k in 0..97 {
        assert_eq!(map.get(&k), reference.get(&k));
        assert_eq!(
            map.tree().higher(&k),
            reference.range(k + 1..).next().map(|(key, _)| key)
        );
        assert_eq!(map.tree().lower(&k), reference.range(..k).next_back().map(|(key, _)| key));
        assert_eq!(map.ceil_key(&k), reference.range(k..).next().map(|(key, _)| key));
        assert_eq!(map.floor_key(&k), reference.range(..=k).next_back().map(|(key, _)| key));
    }
    assert_eq!(map.tree().min(), reference.keys().next());
    assert_eq!(map.tree().max(), reference.keys().next_back());
}

#[test]
fn round_trip_of_one_key() {
    let mut map = new_map();
    for k in [5, 1, 9, 3, 7] {
        map.insert(k, k * 10);
    }
    assert_eq!(map.insert(4, 40), None);
    assert_eq!(map.get(&4), Some(&40));
    assert_eq!(map.remove(&4), Some(40));
    assert_eq!(map.get(&4), None);
    assert!(!map.contains_key(&4));
}

#[test]
fn removing_an_absent_key_changes_nothing() {
    let mut map = new_map();
    for k in [5, 1, 9, 3, 7] {
        map.insert(k, k * 10);
    }
    let before = snapshot(&map);
    let entries: Vec<(u32, u32)> = map.iter().into_iter().map(|(k, v)| (*k, *v)).collect();
    assert_eq!(map.remove(&4), None);
    assert_eq!(map.remove_entry(&4), None);
    assert_eq!(snapshot(&map), before);
    let after: Vec<(u32, u32)> = map.iter().into_iter().map(|(k, v)| (*k, *v)).collect();
    assert_eq!(after, entries);
    assert_eq!(map.len(), 5);
}

#[test]
fn clear_empties_the_map_and_the_arena() {
    let mut map = new_map();
    for k in 0..20 {
        map.insert(k, k);
    }
    map.clear();
    assert_eq!(map.len(), 0);
    assert!(map.is_empty());
    assert_eq!(map.tree().nodes().len(), 0);
    assert!(map.tree().nodes().is_empty());
    assert_eq!(map.tree().root(), None);
    assert_eq!(map.iter(), vec![]);
    for k in 0..20 {
        assert_eq!(map.get(&k), None);
    }
    map.clear();
    assert_eq!(map.len(), 0);
    assert!(map.is_empty());
    assert_eq!(map.insert(3, 4), None);
    assert_eq!(map.tree().root(), Some(FreeListIndex(0)));
    check_invariant(&map);
}

#[test]
fn three_keys_removed_one_by_one() {
    let mut map = new_map();
    for k in [1, 2, 3] {
        map.insert(k, k + 100);
    }
    map.remove(&1);
    assert_eq!(map.get(&1), None);
    assert_eq!(map.get(&2), Some(&102));
    assert_eq!(map.get(&3), Some(&103));
    check_invariant(&map);
    map.remove(&2);
    assert_eq!(map.get(&2), None);
    assert_eq!(map.get(&3), Some(&103));
    check_invariant(&map);
    map.remove(&3);
    assert_eq!(map.get(&3), None);
    assert_eq!(map.len(), 0);
    assert_eq!(map.tree().root(), None);
}

#[test]
fn one_key_inserted_thirty_times_keeps_one_node() {
    let mut map = new_map();
    for v in 0..30 {
        let prior = map.insert(7, v);
        assert_eq!(prior, if v == 0 { None } else { Some(v - 1) });
        assert_eq!(map.tree().nodes().len(), 1);
    }
    assert_eq!(map.len(), 1);
    assert_eq!(map.get(&7), Some(&29));
    assert_eq!(height(&map), 1);
}

#[test]
fn first_node_has_height_one() {
    let mut map = new_map();
    map.insert(11, 0);
    let root = map.tree().root().unwrap();
    assert_eq!(root, FreeListIndex(0));
    let node = map.tree().node(root).unwrap();
    assert_eq!((node.key, node.lft, node.rgt, node.ht), (11, None, None, 1));
}

#[test]
fn left_right_case_rotates_twice() {
    let mut map = new_map();
    for k in [3, 1, 2] {
        map.insert(k, 0);
    }
    let root = map.tree().root().unwrap();
    assert_eq!(root, FreeListIndex(2));
    let node = map.tree().node(root).unwrap();
    assert_eq!((node.key, node.lft, node.rgt, node.ht), (2, Some(FreeListIndex(1)), Some(FreeListIndex(0)), 2));
    check_invariant(&map);
}

#[test]
fn right_left_case_rotates_twice() {
    let mut map = new_map();
    for k in [1, 3, 2] {
        map.insert(k, 0);
    }
    let root = map.tree().root().unwrap();
    assert_eq!(root, FreeListIndex(2));
    let node = map.tree().node(root).unwrap();
    assert_eq!((node.key, node.lft, node.rgt, node.ht), (2, Some(FreeListIndex(0)), Some(FreeListIndex(1)), 2));
    check_invariant(&map);
}

#[test]
fn balance_factor_is_left_height_less_right_height() {
    let mut map = new_map();
    map.insert(2, 0);
    map.insert(1, 0);
    let root = map.tree().node(map.tree().root().unwrap()).unwrap();
    assert_eq!(map.tree().get_balance(root), 1);
    map.insert(3, 0);
    map.insert(4, 0);
    let root = map.tree().node(map.tree().root().unwrap()).unwrap();
    assert_eq!(map.tree().get_balance(root), -1);
    let leaf = map.tree().node(FreeListIndex(3)).unwrap();
    assert_eq!(map.tree().get_balance(leaf), 0);
}

#[test]
fn removed_leaf_slot_is_filled_from_the_highest_slot() {
    let mut map = new_map();
    map.insert(2, 20);
    map.insert(1, 10);
    map.insert(3, 30);
    map.remove(&1);
    let keys: Vec<u32> = map.iter().into_iter().map(|(k, _)| *k).collect();
    assert_eq!(keys, vec![2, 3]);
    let root = map.tree().node(map.tree().root().unwrap()).unwrap();
    assert_eq!((root.key, root.lft, root.rgt, root.ht), (2, None, Some(FreeListIndex(1)), 2));
    assert_eq!(map.values(), vec![&20, &30]);
    check_invariant(&map);
}

#[test]
fn root_follows_when_its_node_is_moved() {
    let mut map = new_map();
    map.insert(1, 10);
    map.insert(2, 20);
    map.insert(3, 30);
    // 2 is the root and sits in slot 1; slot 0 holds 1, slot 2 holds 3.
    map.remove(&3);
    map.insert(0, 0);
    // Now 1 is the root, in slot 0; slot 1 holds 2 and slot 2 holds 0.
    // Removing 2 frees slot 1, which the node of slot 2 fills.
    map.remove(&2);
    check_invariant(&map);
    let keys: Vec<u32> = map.iter().into_iter().map(|(k, _)| *k).collect();
    assert_eq!(keys, vec![1, 0]);
    assert_eq!(map.tree().root(), Some(FreeListIndex(0)));
    map.remove(&1);
    check_invariant(&map);
    assert_eq!(map.tree().root(), Some(FreeListIndex(0)));
    assert_eq!(map.tree().node(FreeListIndex(0)).map(|n| n.key), Some(0));
}

#[test]
fn node_with_two_children_takes_the_largest_key_to_its_left() {
    let mut map = new_map();
    for k in [2, 1, 3] {
        map.insert(k, k);
    }
    map.remove(&2);
    let root_id = map.tree().root().unwrap();
    assert_eq!(root_id, FreeListIndex(0));
    let root = map.tree().node(root_id).unwrap();
    assert_eq!(root.key, 1);
    assert_eq!(root.lft, None);
    assert_eq!(root.ht, 2);
    assert_eq!(map.get(&1), Some(&1));
    assert_eq!(map.get(&3), Some(&3));
    let keys: Vec<u32> = map.iter().into_iter().map(|(k, _)| *k).collect();
    assert_eq!(keys, vec![1, 3]);
    check_invariant(&map);
}

#[test]
fn right_heavy_node_takes_the_smallest_key_to_its_right() {
    let mut map = new_map();
    for k in [2, 1, 4, 3] {
        map.insert(k, k);
    }
    map.remove(&2);
    let root = map.tree().node(map.tree().root().unwrap()).unwrap();
    assert_eq!(root.key, 3);
    assert_eq!(root.ht, 2);
    let keys: Vec<u32> = map.iter().into_iter().map(|(k, _)| *k).collect();
    assert_eq!(keys, vec![3, 1, 4]);
    check_invariant(&map);
}

#[test]
fn substitute_deep_in_the_left_subtree() {
    let mut map = new_map();
    for k in [50, 30, 70, 20, 40, 60, 80, 35, 45] {
        map.insert(k, k);
    }
    map.remove(&50);
    let root = map.tree().node(map.tree().root().unwrap()).unwrap();
    assert_eq!(root.key, 45);
    assert_eq!(map.get(&45), Some(&45));
    assert_eq!(map.get(&50), None);
    check_invariant(&map);
}

#[test]
fn get_mut_changes_the_value_in_place() {
    let mut map = new_map();
    map.insert(1, 10);
    map.insert(2, 20);
    match map.get_mut(&2) {
        Some(v) => *v += 5,
        None => panic!("the key is there"),
    }
    assert_eq!(map.get(&2), Some(&25));
    assert_eq!(map.get(&1), Some(&10));
    assert!(map.get_mut(&3).is_none());
    assert_eq!(map.len(), 2);
    check_invariant(&map);
}

#[test]
fn remove_entry_returns_key_and_value() {
    let mut map = new_map();
    map.insert(1, 10);
    assert_eq!(map.remove_entry(&1), Some((1, 10)));
    assert_eq!(map.remove_entry(&1), None);
    assert!(map.is_empty());
}

#[test]
fn values_come_in_slot_order() {
    let mut map = new_map();
    for k in [30, 10, 20] {
        map.insert(k, k + 1);
    }
    assert_eq!(map.values(), vec![&31, &11, &21]);
    assert_eq!(map.iter(), vec![(&30, &31), (&10, &11), (&20, &21)]);
}

#[test]
fn floor_and_ceil_on_the_empty_map() {
    let map = new_map();
    assert_eq!(map.floor_key(&1), None);
    assert_eq!(map.ceil_key(&1), None);
    assert_eq!(map.tree().min(), None);
    assert_eq!(map.tree().max(), None);
}

#[test]
fn flush_marks_both_stores_clean() {
    let mut map = new_map();
    assert!(!map.tree().nodes().is_dirty());
    assert!(!map.lookup_map().is_dirty());
    map.insert(1, 1);
    assert!(map.tree().nodes().is_dirty());
    assert!(map.lookup_map().is_dirty());
    map.flush();
    assert!(!map.tree().nodes().is_dirty());
    assert!(!map.lookup_map().is_dirty());
    assert_eq!(map.get(&1), Some(&1));
    assert_eq!(map.len(), 1);
    map.insert(1, 2);
    assert!(!map.tree().nodes().is_dirty());
    assert!(map.lookup_map().is_dirty());
    map.flush();
    assert_eq!(map.remove(&9), None);
    assert!(!map.lookup_map().is_dirty());
    assert_eq!(map.remove(&1), Some(2));
    assert!(map.tree().nodes().is_dirty());
    assert!(map.lookup_map().is_dirty());
}

#[test]
fn namespaces_are_the_prefix_with_one_more_byte() {
    let map: TreeMap<u32, u32> = TreeMap::new(vec![1, 2, 3]);
    assert_eq!(map.lookup_map().prefix(), &vec![1, 2, 3, b'v']);
    assert_eq!(map.tree().nodes().prefix(), &vec![1, 2, 3, b'n']);
    let other: TreeMap<u32, u32> = TreeMap::with_hasher(vec![]);
    assert_eq!(other.lookup_map().prefix(), &vec![b'v']);
    assert_eq!(other.tree().nodes().prefix(), &vec![b'n']);
}

#[test]
fn arena_keeps_its_slots_dense() {
    let mut list: FreeList<u32> = FreeList::new(vec![b'a']);
    assert!(list.is_empty());
    assert_eq!(list.insert(10), FreeListIndex(0));
    assert_eq!(list.insert(20), FreeListIndex(1));
    assert_eq!(list.insert(30), FreeListIndex(2));
    assert_eq!(list.len(), 3);
    assert_eq!(list.get(FreeListIndex(1)), Some(&20));
    assert_eq!(list.get(FreeListIndex(3)), None);
    assert!(list.get_mut(FreeListIndex(3)).is_none());
    assert_eq!(list.remove(FreeListIndex(3)), None);
    assert_eq!(list.len(), 3);
    assert_eq!(list.remove(FreeListIndex(0)), Some(10));
    assert_eq!(list.len(), 2);
    assert_eq!(list.get(FreeListIndex(0)), Some(&30));
    assert_eq!(list.get(FreeListIndex(1)), Some(&20));
    assert_eq!(list.get(FreeListIndex(2)), None);
    assert_eq!(list.insert(40), FreeListIndex(2));
    if let Some(item) = list.get_mut(FreeListIndex(1)) {
        *item = 21;
    }
    assert_eq!(list.remove(FreeListIndex(2)), Some(40));
    assert_eq!(list.drain(), vec![30, 21]);
    assert_eq!(list.len(), 0);
    assert_eq!(list.prefix(), &vec![b'a']);
    assert!(list.is_dirty());
    list.flush();
    assert!(!list.is_dirty());
}

#[test]
fn value_store_sets_and_drops() {
    let mut store: LookupMap<u32, u32> = LookupMap::new(vec![b's']);
    assert!(!store.contains_key(&1));
    store.set(1, Some(10));
    assert!(store.contains_key(&1));
    assert_eq!(store.get(&1), Some(&10));
    assert_eq!(store.insert(1, 11), Some(10));
    assert_eq!(store.insert(2, 20), None);
    if let Some(v) = store.get_mut(&2) {
        *v = 21;
    }
    assert_eq!(store.get(&2), Some(&21));
    assert_eq!(store.get(&1), Some(&11));
    assert!(store.get_mut(&3).is_none());
    store.set(1, None);
    assert_eq!(store.get(&1), None);
    store.set(5, None);
    assert_eq!(store.remove(&2), Some(21));
    assert_eq!(store.remove(&2), None);
    assert_eq!(store.prefix(), &vec![b's']);
}

#[test]
fn node_links_lead_to_children() {
    let mut list: FreeList<Node<u32>> = FreeList::new(vec![]);
    let leaf = Node::of(1);
    assert_eq!((leaf.key, leaf.lft, leaf.rgt, leaf.ht), (1, None, None, 1));
    let id = list.insert(leaf);
    let mut top = Node::of(2);
    top.lft = Some(id);
    top.rgt = Some(FreeListIndex(9));
    let left = top.left(&list).map(|(i, n)| (i, n.key));
    assert_eq!(left, Some((FreeListIndex(0), 1)));
    assert!(top.right(&list).is_none());
    top.rgt = Some(id);
    top.lft = None;
    assert!(top.left(&list).is_none());
    assert_eq!(top.right(&list).map(|(i, n)| (i, n.key)), Some((FreeListIndex(0), 1)));
    assert_eq!(expect(Some(5)), 5);
}

#[test]
fn key_order_on_integers() {
    assert!(key_lt(&1u32, &2u32));
    assert!(!key_lt(&2u32, &2u32));
    assert!(!key_lt(&3u32, &2u32));
    assert!(key_lt(&-1i32, &0i32));
    assert!(key_eq(&7u8, &7u8));
    assert!(!key_eq(&7u8, &8u8));
    assert_eq!(key_clone(&41u64), 41u64);
}

#[test]
fn index_without_values() {
    let mut tree: Tree<u32> = Tree::new(vec![b'x']);
    for k in [4, 2, 6, 1, 3, 5, 7] {
        tree.internal_insert(k);
    }
    tree.internal_insert(4);
    assert_eq!(tree.nodes().len(), 7);
    assert_eq!(tree.min(), Some(&1));
    assert_eq!(tree.max(), Some(&7));
    assert_eq!(tree.higher(&4), Some(&5));
    assert_eq!(tree.lower(&4), Some(&3));
    assert_eq!(tree.do_remove(&9), tree.root());
    assert_eq!(tree.nodes().len(), 7);
    let root = tree.do_remove(&4);
    assert_eq!(root, tree.root());
    assert_eq!(tree.node(root.unwrap()).map(|n| n.key), Some(3));
    assert_eq!(tree.nodes().len(), 6);
    let items = tree.drain();
    assert_eq!(items.len(), 6);
    assert_eq!(tree.root(), None);
    assert_eq!(tree.nodes().len(), 0);
}

#[test]
fn iter_mut_hands_out_every_value_in_slot_order() {
    let mut map = new_map();
    for k in [30, 10, 20, 5] {
        map.insert(k, k + 1);
    }
    map.remove(&30);
    // slots: 5, 10, 20
    {
        let entries = map.iter_mut();
        let keys: Vec<u32> = entries.iter().map(|(k, _)| **k).collect();
        assert_eq!(keys, vec![5, 10, 20]);
        for (k, v) in entries {
            assert_eq!(*v, *k + 1);
            *v = *k * 2;
        }
    }
    assert_eq!(map.iter(), vec![(&5, &10), (&10, &20), (&20, &40)]);
    assert_eq!(map.len(), 3);
    check_invariant(&map);
    assert!(new_map().iter_mut().is_empty());
}

#[test]
fn values_mut_hands_out_every_value_in_slot_order() {
    let mut map = new_map();
    for k in [3, 1, 2] {
        map.insert(k, k * 10);
    }
    {
        let values = map.values_mut();
        let seen: Vec<u32> = values.iter().map(|v| **v).collect();
        assert_eq!(seen, vec![30, 10, 20]);
        for (i, v) in values.into_iter().enumerate() {
            *v = i as u32;
        }
    }
    assert_eq!(map.get(&3), Some(&0));
    assert_eq!(map.get(&1), Some(&1));
    assert_eq!(map.get(&2), Some(&2));
    assert_eq!(map.values(), vec![&0, &1, &2]);
    assert!(new_map().values_mut().is_empty());
}

#[test]
fn value_store_hands_out_its_entries_in_key_order() {
    let mut store: LookupMap<u32, u32> = LookupMap::new(vec![]);
    for k in [3, 1, 2] {
        store.insert(k, k);
    }
    store.flush();
    {
        let entries = store.iter_mut();
        let keys: Vec<u32> = entries.iter().map(|(k, _)| **k).collect();
        assert_eq!(keys, vec![1, 2, 3]);
        for (k, v) in entries {
            *v = *k + 100;
        }
    }
    assert!(store.is_dirty());
    assert_eq!(store.get(&1), Some(&101));
    assert_eq!(store.get(&2), Some(&102));
    assert_eq!(store.get(&3), Some(&103));
}

#[test]
fn lookup_finds_the_node_and_the_node_above_it() {
    let mut tree: Tree<u32> = Tree::new(vec![]);
    assert_eq!(tree.lookup(&1), None);
    for k in [2, 1, 3, 4] {
        tree.internal_insert(k);
    }
    assert_eq!(tree.lookup(&2), Some((FreeListIndex(0), FreeListIndex(0))));
    assert_eq!(tree.lookup(&1), Some((FreeListIndex(1), FreeListIndex(0))));
    assert_eq!(tree.lookup(&3), Some((FreeListIndex(2), FreeListIndex(0))));
    assert_eq!(tree.lookup(&4), Some((FreeListIndex(3), FreeListIndex(2))));
    assert_eq!(tree.lookup(&9), None);
    assert_eq!(tree.lookup(&0), None);
}
