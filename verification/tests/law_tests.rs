use scapegoat_tree::ScapeGoatTreeMap;

#[test]
fn get_after_insert_reads_the_write() {
    let mut m = ScapeGoatTreeMap::new();
    m.insert(10, "a");
    m.insert(20, "b");
    m.insert(10, "c");
    assert_eq!(m.get(&10), Some(&"c"));
    assert_eq!(m.get(&20), Some(&"b"));
}

#[test]
fn remove_undoes_insert_of_new_key() {
    let mut m = ScapeGoatTreeMap::new();
    for k in [5u64, 1, 9, 3] {
        m.insert(k, k * 2);
    }
    m.insert(7, 70);
    assert_eq!(m.remove(&7), Some(70));
    assert_eq!(m.len(), 4);
    for k in [5u64, 1, 9, 3] {
        assert_eq!(m.get(&k), Some(&(k * 2)));
    }
    assert_eq!(m.get(&7), None);
}

#[test]
fn absent_after_remove() {
    let mut m = ScapeGoatTreeMap::new();
    m.insert(1, ());
    m.remove(&1);
    m.remove(&2);
    assert!(!m.contains_key(&1));
    assert!(!m.contains_key(&2));
}

#[test]
fn insert_len_counts_new_keys_only() {
    let mut m = ScapeGoatTreeMap::new();
    m.insert(1, 1);
    assert_eq!(m.len(), 1);
    m.insert(1, 2);
    assert_eq!(m.len(), 1);
    m.insert(2, 2);
    assert_eq!(m.len(), 2);
}

#[test]
fn first_key_value_is_what_pop_first_takes() {
    let mut m = ScapeGoatTreeMap::new();
    for k in [12u64, 4, 30, 8] {
        m.insert(k, k + 1);
    }
    let first = m.first_key_value().map(|(k, v)| (*k, *v));
    assert_eq!(first, Some((4, 5)));
    assert_eq!(m.pop_first(), first);
    let last = m.last_key_value().map(|(k, v)| (*k, *v));
    assert_eq!(last, Some((30, 31)));
    assert_eq!(m.pop_last(), last);
}

#[test]
fn pops_come_out_in_order() {
    let mut m = ScapeGoatTreeMap::new();
    for k in [6u64, 2, 9, 4, 1] {
        m.insert(k, ());
    }
    assert_eq!(m.pop_first().map(|e| e.0), Some(1));
    assert_eq!(m.pop_first().map(|e| e.0), Some(2));
    assert_eq!(m.pop_last().map(|e| e.0), Some(9));
    assert_eq!(m.pop_last().map(|e| e.0), Some(6));
    assert_eq!(m.pop_first().map(|e| e.0), Some(4));
    assert_eq!(m.pop_first(), None);
}

#[test]
fn distinct_pairs_in_any_order_give_the_same_map() {
    let pairs = vec![(3u64, 'c'), (1, 'a'), (4, 'd'), (2, 'b')];
    let mut reversed = pairs.clone();
    reversed.reverse();
    let a = ScapeGoatTreeMap::from_iter(pairs.clone());
    let b = ScapeGoatTreeMap::from_iter(reversed);
    for (k, v) in &pairs {
        assert_eq!(a.get(k), Some(v));
        assert_eq!(b.get(k), Some(v));
    }
    assert_eq!(a.len(), 4);
    assert_eq!(b.len(), 4);
}

#[test]
fn len_never_exceeds_max_len() {
    let mut m = ScapeGoatTreeMap::new();
    for k in 0..100u64 {
        m.insert(k * 7 % 100, ());
        assert!(m.len() <= m.max_len());
    }
    for k in 0..100u64 {
        m.remove(&k);
        assert!(m.len() <= m.max_len());
    }
}

#[test]
fn draining_by_pop_first_hands_out_every_key_once() {
    let keys = [42u64, 7, 19, 3, 88, 61, 25, 10, 54];
    let mut m = ScapeGoatTreeMap::new();
    for k in keys {
        m.insert(k, k + 1);
    }
    let mut out = Vec::new();
    while let Some((k, v)) = m.pop_first() {
        assert_eq!(v, k + 1);
        out.push(k);
    }
    let mut sorted = keys.to_vec();
    sorted.sort();
    assert_eq!(out, sorted);
    assert!(m.is_empty());
}
