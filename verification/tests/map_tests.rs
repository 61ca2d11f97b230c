use scapegoat_tree::{node_layout, Global, ScapeGoatTreeMap};
use std::collections::BTreeMap;

/// A small deterministic pseudo-random sequence for shuffled workloads.
fn lcg(seed: &mut u64) -> u64 {
    *seed = seed.wrapping_mul(6364136223846793005).wrapping_add(1442695040888963407);
    *seed >> 33
}

#[test]
fn new_map_is_empty() {
    let m: ScapeGoatTreeMap<u32> = ScapeGoatTreeMap::new();
    assert_eq!(m.len(), 0);
    assert!(m.is_empty());
    assert_eq!(m.get(&1), None);
    assert!(!m.contains_key(&1));
    assert_eq!(m.first_key_value(), None);
    assert_eq!(m.last_key_value(), None);
}

#[test]
fn new_in_holds_allocator() {
    let mut m: ScapeGoatTreeMap<&str, Global> = ScapeGoatTreeMap::new_in(Global);
    assert!(m.is_empty());
    assert_eq!(m.insert(7, "seven"), None);
    assert_eq!(m.get(&7), Some(&"seven"));
}

#[test]
fn insert_and_get() {
    let mut m = ScapeGoatTreeMap::new();
    assert_eq!(m.insert(5, "five"), None);
    assert_eq!(m.insert(3, "three"), None);
    assert_eq!(m.insert(8, "eight"), None);
    assert_eq!(m.len(), 3);
    assert_eq!(m.get(&3), Some(&"three"));
    assert_eq!(m.get(&5), Some(&"five"));
    assert_eq!(m.get(&8), Some(&"eight"));
    assert_eq!(m.get(&4), None);
    assert!(m.contains_key(&8));
    assert!(!m.contains_key(&9));
}

#[test]
fn insert_existing_returns_old_value() {
    let mut m = ScapeGoatTreeMap::new();
    assert_eq!(m.insert(1, 10), None);
    assert_eq!(m.insert(1, 11), Some(10));
    assert_eq!(m.len(), 1);
    assert_eq!(m.get(&1), Some(&11));
}

#[test]
fn remove_present_and_absent() {
    let mut m = ScapeGoatTreeMap::new();
    for k in 0..10u64 {
        m.insert(k, k * 100);
    }
    assert_eq!(m.remove(&4), Some(400));
    assert_eq!(m.remove(&4), None);
    assert_eq!(m.remove(&42), None);
    assert_eq!(m.len(), 9);
    assert_eq!(m.remove_entry(&9), Some((9, 900)));
    assert_eq!(m.remove_entry(&9), None);
    assert_eq!(m.len(), 8);
    assert!(!m.contains_key(&4));
    assert_eq!(m.get(&5), Some(&500));
}

#[test]
fn remove_from_empty() {
    let mut m: ScapeGoatTreeMap<u8> = ScapeGoatTreeMap::new();
    assert_eq!(m.remove(&0), None);
    assert_eq!(m.remove_entry(&0), None);
    assert_eq!(m.pop_first(), None);
    assert_eq!(m.pop_last(), None);
    assert!(m.is_empty());
}

#[test]
fn remove_node_with_two_children() {
    let mut m = ScapeGoatTreeMap::new();
    for k in [50u64, 30, 70, 20, 40, 60, 80] {
        m.insert(k, k);
    }
    assert_eq!(m.remove(&50), Some(50));
    assert_eq!(m.remove(&30), Some(30));
    let mut keys = Vec::new();
    while let Some((k, _)) = m.pop_first() {
        keys.push(k);
    }
    assert_eq!(keys, vec![20, 40, 60, 70, 80]);
}

#[test]
fn first_and_last() {
    let mut m = ScapeGoatTreeMap::new();
    for k in [17u64, 3, 99, 42, 8] {
        m.insert(k, k as i32 - 1);
    }
    assert_eq!(m.first_key_value(), Some((&3, &2)));
    assert_eq!(m.last_key_value(), Some((&99, &98)));
}

#[test]
fn pop_first_gives_ascending_keys() {
    let mut m = ScapeGoatTreeMap::new();
    let mut seed = 1u64;
    let mut expected = Vec::new();
    for _ in 0..300 {
        let k = lcg(&mut seed) % 1000;
        if m.insert(k, k + 1).is_none() {
            expected.push(k);
        }
    }
    expected.sort();
    let mut got = Vec::new();
    while let Some((k, v)) = m.pop_first() {
        assert_eq!(v, k + 1);
        got.push(k);
    }
    assert_eq!(got, expected);
    assert!(m.is_empty());
}

#[test]
fn pop_last_gives_descending_keys() {
    let mut m = ScapeGoatTreeMap::new();
    for k in 0..200u64 {
        m.insert((k * 37) % 200, k);
    }
    let mut prev = None;
    let mut count = 0;
    while let Some((k, _)) = m.pop_last() {
        if let Some(p) = prev {
            assert!(k < p);
        }
        prev = Some(k);
        count += 1;
    }
    assert_eq!(count, 200);
}

#[test]
fn get_mut_writes_through() {
    let mut m = ScapeGoatTreeMap::new();
    m.insert(1, String::from("a"));
    m.insert(2, String::from("b"));
    if let Some(v) = m.get_mut(&2) {
        v.push('z');
    }
    assert!(m.get_mut(&3).is_none());
    assert_eq!(m.get(&2).map(|s| s.as_str()), Some("bz"));
    assert_eq!(m.get(&1).map(|s| s.as_str()), Some("a"));
    assert_eq!(m.len(), 2);
}

#[test]
fn clear_empties_the_map() {
    let mut m = ScapeGoatTreeMap::new();
    for k in 0..50u64 {
        m.insert(k, ());
    }
    m.clear();
    assert_eq!(m.len(), 0);
    assert!(m.is_empty());
    assert_eq!(m.get(&3), None);
    m.insert(3, ());
    assert_eq!(m.len(), 1);
}

#[test]
fn from_iter_later_pairs_win() {
    let m = ScapeGoatTreeMap::from_iter(vec![(1, 'a'), (2, 'b'), (1, 'c'), (3, 'd')]);
    assert_eq!(m.len(), 3);
    assert_eq!(m.get(&1), Some(&'c'));
    assert_eq!(m.get(&2), Some(&'b'));
    assert_eq!(m.get(&3), Some(&'d'));
}

#[test]
fn from_iter_empty() {
    let m: ScapeGoatTreeMap<u8> = ScapeGoatTreeMap::from_iter(Vec::new());
    assert!(m.is_empty());
}

#[test]
fn ascending_inserts_rebalance_and_keep_all_entries() {
    let mut m = ScapeGoatTreeMap::new();
    for k in 0..2000u64 {
        assert_eq!(m.insert(k, k * 2), None);
    }
    assert_eq!(m.len(), 2000);
    for k in 0..2000u64 {
        assert_eq!(m.get(&k), Some(&(k * 2)));
    }
    assert_eq!(m.first_key_value(), Some((&0, &0)));
    assert_eq!(m.last_key_value(), Some((&1999, &3998)));
}

#[test]
fn descending_inserts_keep_all_entries() {
    let mut m = ScapeGoatTreeMap::new();
    for k in (0..1500u64).rev() {
        m.insert(k, k);
    }
    for k in 0..1500u64 {
        assert!(m.contains_key(&k));
    }
    assert!(!m.contains_key(&1500));
}

#[test]
fn removals_shrink_and_rebuild() {
    let mut m = ScapeGoatTreeMap::new();
    for k in 0..900u64 {
        m.insert(k, k);
    }
    for k in 0..800u64 {
        assert_eq!(m.remove(&k), Some(k));
    }
    assert_eq!(m.len(), 100);
    for k in 800..900u64 {
        assert_eq!(m.get(&k), Some(&k));
    }
    for k in 0..800u64 {
        assert_eq!(m.get(&k), None);
    }
}

#[test]
fn agrees_with_btreemap_on_mixed_workload() {
    let mut m = ScapeGoatTreeMap::new();
    let mut reference = BTreeMap::new();
    let mut seed = 12345u64;
    for _ in 0..5000 {
        let op = lcg(&mut seed) % 6;
        let k = lcg(&mut seed) % 400;
        match op {
            0 | 1 | 2 => assert_eq!(m.insert(k, k ^ 7), reference.insert(k, k ^ 7)),
            3 => assert_eq!(m.remove(&k), reference.remove(&k)),
            4 => assert_eq!(m.pop_first(), reference.pop_first()),
            _ => assert_eq!(m.pop_last(), reference.pop_last()),
        }
        assert_eq!(m.len(), reference.len());
        assert_eq!(m.first_key_value(), reference.first_key_value());
        assert_eq!(m.last_key_value(), reference.last_key_value());
        assert_eq!(m.get(&k), reference.get(&k));
    }
}

#[test]
fn node_layout_covers_a_node() {
    let l = node_layout::<u64>();
    assert!(l.size() >= 2 * std::mem::size_of::<u64>() + 2 * std::mem::size_of::<usize>());
    assert!(l.align() >= std::mem::align_of::<u64>());
    let small = node_layout::<u8>();
    assert!(small.size() <= l.size());
}
