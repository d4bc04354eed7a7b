use quickcheck::QuickCheck;
use rand::RngCore;
use std::collections::BTreeMap;
use std::collections::HashSet;
use tree_map::{FreeListIndex, TreeMap};

fn next_trie_id() -> Vec<u8> {
    vec![b't']
}

/// Height of the tree: the number of nodes on the longest path from the root.
fn height<K: Ord + Clone, V>(tree: &TreeMap<K, V>) -> u32 {
    tree.tree().root().and_then(|root| tree.tree().node(root)).map(|n| n.ht).unwrap_or_default()
}

fn random(n: u32) -> Vec<u32> {
    let mut rng = rand::thread_rng();
    let mut vec = Vec::with_capacity(n as usize);
    (0..n).for_each(|_| {
        vec.push(rng.next_u32() % 1000);
    });
    vec
}

fn log2(x: f64) -> f64 {
    f64::log(x, 2.0f64)
}

fn max_tree_height(n: u32) -> u32 {
    // h <= C * log2(n + D) + B
    // where:
    // C =~ 1.440, D =~ 1.065, B =~ 0.328
    const B: f64 = -0.328;
    const C: f64 = 1.440;
    const D: f64 = 1.065;

    let h = C * log2(n as f64 + D) + B;
    h.ceil() as u32
}

fn avl<K, V>(insert: &[(K, V)], remove: &[K]) -> TreeMap<K, V>
where
    K: Ord + Clone,
    V: Default + Clone,
{
    let mut map: TreeMap<K, V> = TreeMap::new(next_trie_id());
    for k in remove {
        map.insert(k.clone(), Default::default());
    }
    let n = insert.len().max(remove.len());
    for i in 0..n {
        if i < remove.len() {
            map.remove(&remove[i]);
        }
        if i < insert.len() {
            let (k, v) = &insert[i];
            map.insert(k.clone(), v.clone());
        }
    }
    map
}

fn rb<K, V>(insert: &[(K, V)], remove: &[K]) -> BTreeMap<K, V>
where
    K: Ord + Clone,
    V: Clone + Default,
{
    let mut map: BTreeMap<K, V> = BTreeMap::default();
    for k in remove {
        map.insert(k.clone(), Default::default());
    }
    let n = insert.len().max(remove.len());
    for i in 0..n {
        if i < remove.len() {
            map.remove(&remove[i]);
        }
        if i < insert.len() {
            let (k, v) = &insert[i];
            map.insert(k.clone(), v.clone());
        }
    }
    map
}

fn is_balanced<K: Ord + Clone, V>(map: &TreeMap<K, V>, root: FreeListIndex) -> bool {
    let node = map.tree().node(root).unwrap();
    let balance = map.tree().get_balance(node);

    (balance >= -1 && balance <= 1)
        && node.lft.map(|id| is_balanced(map, id)).unwrap_or(true)
        && node.rgt.map(|id| is_balanced(map, id)).unwrap_or(true)
}

#[test]
fn test_empty() {
    let map: TreeMap<u8, u8> = TreeMap::new(vec![b't']);
    assert_eq!(map.len(), 0);
    assert_eq!(height(&map), 0);
    assert_eq!(map.get(&42), None);
    assert!(!map.contains_key(&42));
    assert_eq!(map.tree().min(), None);
    assert_eq!(map.tree().max(), None);
    assert_eq!(map.tree().lower(&42), None);
    assert_eq!(map.tree().higher(&42), None);
}

#[test]
fn test_insert_3_rotate_l_l() {
    let mut map: TreeMap<i32, i32> = TreeMap::new(next_trie_id());
    assert_eq!(height(&map), 0);

    map.insert(3, 3);
    assert_eq!(height(&map), 1);

    map.insert(2, 2);
    assert_eq!(height(&map), 2);

    map.insert(1, 1);
    assert_eq!(height(&map), 2);

    let root = map.tree().root().unwrap();
    assert_eq!(root, FreeListIndex(1));
    assert_eq!(map.tree().node(root).map(|n| n.key), Some(2));

    map.clear();
}

#[test]
fn test_insert_3_rotate_r_r() {
    let mut map: TreeMap<i32, i32> = TreeMap::new(next_trie_id());
    assert_eq!(height(&map), 0);

    map.insert(1, 1);
    assert_eq!(height(&map), 1);

    map.insert(2, 2);
    assert_eq!(height(&map), 2);

    map.insert(3, 3);

    let root = map.tree().root().unwrap();
    assert_eq!(root, FreeListIndex(1));
    assert_eq!(map.tree().node(root).map(|n| n.key), Some(2));
    assert_eq!(height(&map), 2);

    map.clear();
}

#[test]
fn test_insert_lookup_n_asc() {
    let mut map: TreeMap<i32, i32> = TreeMap::new(next_trie_id());

    let n: u32 = 30;
    let cases = (0..2 * (n as i32)).collect::<Vec<i32>>();

    let mut counter = 0;
    for k in cases.iter().copied() {
        if k % 2 == 0 {
            counter += 1;
            map.insert(k, counter);
        }
    }

    counter = 0;
    for k in &cases {
        if *k % 2 == 0 {
            counter += 1;
            assert_eq!(map.get(k), Some(&counter));
        } else {
            assert_eq!(map.get(k), None);
        }
    }

    assert!(height(&map) <= max_tree_height(n));
    map.clear();
}

#[test]
fn test_insert_one() {
    let mut map = TreeMap::new(vec![b'm']);
    assert_eq!(None, map.insert(1, 2));
    assert_eq!(2, map.insert(1, 3).unwrap());
}

#[test]
fn test_insert_lookup_n_desc() {
    let mut map: TreeMap<i32, i32> = TreeMap::new(next_trie_id());

    let n: u32 = 30;
    let cases = (0..2 * (n as i32)).rev().collect::<Vec<i32>>();

    let mut counter = 0;
    for k in cases.iter().copied() {
        if k % 2 == 0 {
            counter += 1;
            map.insert(k, counter);
        }
    }

    counter = 0;
    for k in &cases {
        if *k % 2 == 0 {
            counter += 1;
            assert_eq!(map.get(k), Some(&counter));
        } else {
            assert_eq!(map.get(k), None);
        }
    }

    assert!(height(&map) <= max_tree_height(n));
    map.clear();
}

#[test]
fn insert_n_random() {
    for k in 1..10 {
        // tree size is 2^k
        let mut map: TreeMap<u32, u32> = TreeMap::new(next_trie_id());

        let n = 1 << k;
        let input: Vec<u32> = random(n);

        for x in input.iter().copied() {
            map.insert(x, 42);
        }

        for x in &input {
            assert_eq!(map.get(x), Some(&42));
        }

        assert!(height(&map) <= max_tree_height(n));
        map.clear();
    }
}

#[test]
fn test_max() {
    let n: u32 = 30;
    let vec = random(n);

    let mut map: TreeMap<u32, u32> = TreeMap::new(vec![b't']);
    for x in vec.iter().rev().copied() {
        map.insert(x, 1);
    }

    assert_eq!(map.tree().max().unwrap(), vec.iter().max().unwrap());
    map.clear();
}

#[test]
fn test_lower() {
    let mut map: TreeMap<u32, u32> = TreeMap::new(next_trie_id());
    let vec: Vec<u32> = vec![10, 20, 30, 40, 50];

    for x in vec.into_iter() {
        map.insert(x, 1);
    }

    assert_eq!(map.tree().lower(&5), None);
    assert_eq!(map.tree().lower(&10), None);
    assert_eq!(map.tree().lower(&11), Some(&10));
    assert_eq!(map.tree().lower(&20), Some(&10));
    assert_eq!(map.tree().lower(&49), Some(&40));
    assert_eq!(map.tree().lower(&50), Some(&40));
    assert_eq!(map.tree().lower(&51), Some(&50));

    map.clear();
}

#[test]
fn test_higher() {
    let mut map: TreeMap<u32, u32> = TreeMap::new(next_trie_id());
    let vec: Vec<u32> = vec![10, 20, 30, 40, 50];

    for x in vec.into_iter() {
        map.insert(x, 1);
    }

    assert_eq!(map.tree().higher(&5), Some(&10));
    assert_eq!(map.tree().higher(&10), Some(&20));
    assert_eq!(map.tree().higher(&11), Some(&20));
    assert_eq!(map.tree().higher(&20), Some(&30));
    assert_eq!(map.tree().higher(&49), Some(&50));
    assert_eq!(map.tree().higher(&50), None);
    assert_eq!(map.tree().higher(&51), None);

    map.clear();
}

#[test]
fn test_floor_key() {
    let mut map: TreeMap<u32, u32> = TreeMap::new(next_trie_id());
    let vec: Vec<u32> = vec![10, 20, 30, 40, 50];

    for x in vec.into_iter() {
        map.insert(x, 1);
    }

    assert_eq!(map.floor_key(&5), None);
    assert_eq!(map.floor_key(&10), Some(&10));
    assert_eq!(map.floor_key(&11), Some(&10));
    assert_eq!(map.floor_key(&20), Some(&20));
    assert_eq!(map.floor_key(&49), Some(&40));
    assert_eq!(map.floor_key(&50), Some(&50));
    assert_eq!(map.floor_key(&51), Some(&50));

    map.clear();
}

#[test]
fn test_ceil_key() {
    let mut map: TreeMap<u32, u32> = TreeMap::new(next_trie_id());
    let vec: Vec<u32> = vec![10, 20, 30, 40, 50];

    for x in vec.into_iter() {
        map.insert(x, 1);
    }

    assert_eq!(map.ceil_key(&5), Some(&10));
    assert_eq!(map.ceil_key(&10), Some(&10));
    assert_eq!(map.ceil_key(&11), Some(&20));
    assert_eq!(map.ceil_key(&20), Some(&20));
    assert_eq!(map.ceil_key(&49), Some(&50));
    assert_eq!(map.ceil_key(&50), Some(&50));
    assert_eq!(map.ceil_key(&51), None);

    map.clear();
}

#[test]
fn test_remove_1() {
    let mut map: TreeMap<u32, u32> = TreeMap::new(next_trie_id());
    map.insert(1, 1);
    assert_eq!(map.get(&1), Some(&1));
    map.remove(&1);
    assert_eq!(map.get(&1), None);
    assert_eq!(map.tree().nodes().len(), 0);
    map.clear();
}

#[test]
fn test_remove_3() {
    let map: TreeMap<u32, u32> = avl(&[(0, 0)], &[0, 0, 1]);

    assert_eq!(map.iter(), vec![]);
}

#[test]
fn test_remove_3_desc() {
    let vec: Vec<u32> = vec![3, 2, 1];
    let mut map: TreeMap<u32, u32> = TreeMap::new(next_trie_id());

    for x in &vec {
        assert_eq!(map.get(x), None);
        map.insert(*x, 1);
        assert_eq!(map.get(x), Some(&1));
    }

    for x in &vec {
        assert_eq!(map.get(x), Some(&1));
        map.remove(x);
        assert_eq!(map.get(x), None);
    }
    map.clear();
}

#[test]
fn test_remove_3_asc() {
    let vec: Vec<u32> = vec![1, 2, 3];
    let mut map: TreeMap<u32, u32> = TreeMap::new(next_trie_id());

    for x in &vec {
        assert_eq!(map.get(x), None);
        map.insert(*x, 1);
        assert_eq!(map.get(x), Some(&1));
    }

    for x in &vec {
        assert_eq!(map.get(x), Some(&1));
        map.remove(x);
        assert_eq!(map.get(x), None);
    }
    map.clear();
}

#[test]
fn test_remove_7_regression_1() {
    let vec: Vec<u32> =
        vec![2104297040, 552624607, 4269683389, 3382615941, 155419892, 4102023417, 1795725075];
    let mut map: TreeMap<u32, u32> = TreeMap::new(next_trie_id());

    for x in &vec {
        assert_eq!(map.get(x), None);
        map.insert(*x, 1);
        assert_eq!(map.get(x), Some(&1));
    }

    for x in &vec {
        assert_eq!(map.get(x), Some(&1));
        map.remove(x);
        assert_eq!(map.get(x), None);
    }
    map.clear();
}

#[test]
fn test_remove_7_regression_2() {
    let vec: Vec<u32> =
        vec![700623085, 87488544, 1500140781, 1111706290, 3187278102, 4042663151, 3731533080];
    let mut map: TreeMap<u32, u32> = TreeMap::new(next_trie_id());

    for x in &vec {
        assert_eq!(map.get(x), None);
        map.insert(*x, 1);
        assert_eq!(map.get(x), Some(&1));
    }

    for x in &vec {
        assert_eq!(map.get(x), Some(&1));
        map.remove(x);
        assert_eq!(map.get(x), None);
    }
    map.clear();
}

#[test]
fn test_remove_9_regression() {
    let vec: Vec<u32> = vec![
        1186903464, 506371929, 1738679820, 1883936615, 1815331350, 1512669683, 3581743264,
        1396738166, 1902061760,
    ];
    let mut map: TreeMap<u32, u32> = TreeMap::new(next_trie_id());

    for x in &vec {
        assert_eq!(map.get(x), None);
        map.insert(*x, 1);
        assert_eq!(map.get(x), Some(&1));
    }

    for x in &vec {
        assert_eq!(map.get(x), Some(&1));
        map.remove(x);
        assert_eq!(map.get(x), None);
    }
    map.clear();
}

#[test]
fn test_remove_20_regression_1() {
    let vec: Vec<u32> = vec![
        552517392, 3638992158, 1015727752, 2500937532, 638716734, 586360620, 2476692174,
        1425948996, 3608478547, 757735878, 2709959928, 2092169539, 3620770200, 783020918,
        1986928932, 200210441, 1972255302, 533239929, 497054557, 2137924638,
    ];
    let mut map: TreeMap<u32, u32> = TreeMap::new(next_trie_id());

    for x in &vec {
        assert_eq!(map.get(x), None);
        map.insert(*x, 1);
        assert_eq!(map.get(x), Some(&1));
    }

    for x in &vec {
        assert_eq!(map.get(x), Some(&1));
        map.remove(x);
        assert_eq!(map.get(x), None);
    }
    map.clear();
}

#[test]
fn test_remove_7_regression() {
    let vec: Vec<u32> = vec![280, 606, 163, 857, 436, 508, 44, 801];

    let mut map: TreeMap<u32, u32> = TreeMap::new(next_trie_id());

    for x in &vec {
        assert_eq!(map.get(x), None);
        map.insert(*x, 1);
        assert_eq!(map.get(x), Some(&1));
    }

    for x in &vec {
        assert_eq!(map.get(x), Some(&1));
        map.remove(x);
        assert_eq!(map.get(x), None);
    }

    assert_eq!(map.len(), 0, "map.len() > 0");
    assert_eq!(map.tree().nodes().len(), 0, "map.tree is not empty");
    map.clear();
}

#[test]
fn test_insert_8_remove_4_regression() {
    let insert = vec![882, 398, 161, 76];
    let remove = vec![242, 687, 860, 811];

    let mut map: TreeMap<u32, u32> = TreeMap::new(next_trie_id());

    for (i, (k1, k2)) in insert.iter().zip(remove.iter()).enumerate() {
        let v = i as u32;
        map.insert(*k1, v);
        map.insert(*k2, v);
    }

    for k in remove.iter() {
        map.remove(k);
    }

    assert_eq!(map.len(), insert.len() as u32);

    for (i, k) in (0..).zip(insert.iter()) {
        assert_eq!(map.get(k), Some(&i));
    }
}

#[test]
fn test_remove_n() {
    let n: u32 = 20;
    let vec = random(n);

    let mut set: HashSet<u32> = HashSet::new();
    let mut map: TreeMap<u32, u32> = TreeMap::new(next_trie_id());
    for x in &vec {
        map.insert(*x, 1);
        set.insert(*x);
    }

    assert_eq!(map.len(), set.len() as u32);

    for x in &set {
        assert_eq!(map.get(x), Some(&1));
        map.remove(x);
        assert_eq!(map.get(x), None);
    }

    assert_eq!(map.len(), 0, "map.len() > 0");
    assert_eq!(map.tree().nodes().len(), 0, "map.tree is not empty");
    map.clear();
}

#[test]
fn test_remove_root_3() {
    let mut map: TreeMap<u32, u32> = TreeMap::new(next_trie_id());
    map.insert(2, 1);
    map.insert(3, 1);
    map.insert(1, 1);
    map.insert(4, 1);

    map.remove(&2);

    assert_eq!(map.get(&1), Some(&1));
    assert_eq!(map.get(&2), None);
    assert_eq!(map.get(&3), Some(&1));
    assert_eq!(map.get(&4), Some(&1));
    map.clear();
}

#[test]
fn test_insert_2_remove_2_regression() {
    let ins: Vec<u32> = vec![11760225, 611327897];
    let rem: Vec<u32> = vec![2982517385, 1833990072];

    let mut map: TreeMap<u32, u32> = TreeMap::new(next_trie_id());
    map.insert(ins[0], 1);
    map.insert(ins[1], 1);

    map.remove(&rem[0]);
    map.remove(&rem[1]);

    let h = height(&map);
    let h_max = max_tree_height(map.len());
    assert!(h <= h_max, "h={} h_max={}", h, h_max);
    map.clear();
}

#[test]
fn test_insert_n_duplicates() {
    let mut map: TreeMap<u32, u32> = TreeMap::new(next_trie_id());

    for x in 0..30 {
        map.insert(x, x);
        map.insert(42, x);
    }

    assert_eq!(map.get(&42), Some(&29));
    assert_eq!(map.len(), 31);
    assert_eq!(map.tree().nodes().len(), 31);

    map.clear();
}

#[test]
fn test_insert_2n_remove_n_random() {
    for k in 1..4 {
        let mut map: TreeMap<u32, u32> = TreeMap::new(next_trie_id());
        let mut set: HashSet<u32> = HashSet::new();

        let n = 1 << k;
        let ins: Vec<u32> = random(n);
        let rem: Vec<u32> = random(n);

        for x in &ins {
            set.insert(*x);
            map.insert(*x, 42);
        }

        for x in &rem {
            set.insert(*x);
            map.insert(*x, 42);
        }

        for x in &rem {
            set.remove(x);
            map.remove(x);
        }

        assert_eq!(map.len(), set.len() as u32);

        let h = height(&map);
        let h_max = max_tree_height(n);
        assert!(h <= h_max, "[n={}] tree is too high: {} (max is {}).", n, h, h_max);

        map.clear();
    }
}

#[test]
fn test_remove_empty() {
    let mut map: TreeMap<u32, u32> = TreeMap::new(next_trie_id());
    assert_eq!(map.remove(&1), None);
}

#[test]
fn test_iter() {
    let mut map: TreeMap<u32, u32> = TreeMap::new(next_trie_id());
    map.insert(1, 41);
    map.insert(2, 42);
    map.insert(3, 43);

    assert_eq!(map.iter(), vec![(&1, &41), (&2, &42), (&3, &43)]);

    assert_eq!(map.iter().into_iter().nth(1), Some((&2, &42)));
    assert_eq!(map.iter().into_iter().count(), 3);
    assert_eq!(map.iter().into_iter().last(), Some((&3, &43)));
    map.clear();
}

#[test]
fn test_iter_empty() {
    let map: TreeMap<u32, u32> = TreeMap::new(next_trie_id());
    assert_eq!(map.iter().into_iter().count(), 0);
}

#[test]
fn test_iter_rev() {
    let mut map: TreeMap<u32, u32> = TreeMap::new(next_trie_id());
    map.insert(1, 41);
    map.insert(2, 42);
    map.insert(3, 43);

    assert_eq!(
        map.iter().into_iter().rev().collect::<Vec<(&u32, &u32)>>(),
        vec![(&3, &43), (&2, &42), (&1, &41)]
    );

    assert_eq!(map.iter().into_iter().rev().nth(1), Some((&2, &42)));
    assert_eq!(map.iter().into_iter().rev().count(), 3);
    assert_eq!(map.iter().into_iter().rev().last(), Some((&1, &41)));
    map.clear();
}

#[test]
fn test_iter_rev_empty() {
    let map: TreeMap<u32, u32> = TreeMap::new(next_trie_id());
    assert_eq!(map.iter().into_iter().rev().count(), 0);
}

#[test]
fn test_balance_regression_1() {
    let insert = vec![(2, 0), (3, 0), (4, 0)];
    let remove = vec![0, 0, 0, 1];

    let map: TreeMap<u32, u32> = avl(&insert, &remove);
    assert!(is_balanced(&map, map.tree().root().unwrap()));
}

#[test]
fn test_balance_regression_2() {
    let insert = vec![(1, 0), (2, 0), (0, 0), (3, 0), (5, 0), (6, 0)];
    let remove = vec![0, 0, 0, 3, 5, 6, 7, 4];

    let map: TreeMap<u32, u32> = avl(&insert, &remove);
    assert!(is_balanced(&map, map.tree().root().unwrap()));
}

fn prop_same_entries(insert: Vec<(u32, u32)>, remove: Vec<u32>) -> bool {
    let a = avl(&insert, &remove);
    let b = rb(&insert, &remove);
    let mut v1: Vec<(&u32, &u32)> = a.iter();
    v1.sort();
    let v2: Vec<(&u32, &u32)> = b.iter().collect();
    v1 == v2
}

#[test]
fn prop_avl_vs_rb() {
    QuickCheck::new()
        .tests(300)
        .quickcheck(prop_same_entries as fn(std::vec::Vec<(u32, u32)>, std::vec::Vec<u32>) -> bool);
}

fn prop_balanced(insert: Vec<(u32, u32)>, remove: Vec<u32>) -> bool {
    let map = avl(&insert, &remove);
    map.is_empty() || is_balanced(&map, map.tree().root().unwrap())
}

#[test]
fn prop_avl_balance() {
    QuickCheck::new()
        .tests(300)
        .quickcheck(prop_balanced as fn(std::vec::Vec<(u32, u32)>, std::vec::Vec<u32>) -> bool);
}

fn prop_height(insert: Vec<(u32, u32)>, remove: Vec<u32>) -> bool {
    let map = avl(&insert, &remove);
    height(&map) <= max_tree_height(map.len())
}

#[test]
fn prop_avl_height() {
    QuickCheck::new()
        .tests(300)
        .quickcheck(prop_height as fn(std::vec::Vec<(u32, u32)>, std::vec::Vec<u32>) -> bool);
}
