use scapegoat_tree::bound::depth_within_bound;
use scapegoat_tree::ScapeGoatTreeMap;

/// The largest depth `d` with `(3/2)^d <= n`, by brute force in floats
/// for small `n`.
fn float_depth_max(n: usize) -> usize {
    (2.4663034623764317 * (n as f64).ln()) as usize
}

#[test]
fn depth_bound_small_values() {
    assert!(depth_within_bound(0, 1));
    assert!(!depth_within_bound(0, 0));
    assert!(depth_within_bound(1, 2));
    assert!(!depth_within_bound(2, 2));
    assert!(depth_within_bound(2, 3));
    assert!(depth_within_bound(3, 4));
    assert!(!depth_within_bound(4, 5));
    assert!(depth_within_bound(11, 100));
    assert!(!depth_within_bound(12, 100));
}

#[test]
fn depth_bound_at_the_top_of_usize() {
    assert!(depth_within_bound(109, usize::MAX));
    assert!(!depth_within_bound(110, usize::MAX));
    assert!(!depth_within_bound(1000, usize::MAX));
}

#[test]
fn depth_bound_matches_log_three_halves() {
    for n in 1..3000usize {
        let d = float_depth_max(n);
        assert!(depth_within_bound(d, n), "n = {}", n);
        assert!(!depth_within_bound(d + 1, n), "n = {}", n);
    }
}

fn deepest_level(m: &ScapeGoatTreeMap<u32>) -> usize {
    m.display_lines()
        .iter()
        .map(|l| match l.side {
            scapegoat_tree::display::Side::Root => 0,
            _ => l.bars.len() + 1,
        })
        .max()
        .unwrap_or(0)
}

#[test]
fn height_stays_logarithmic_under_ascending_inserts() {
    let mut m = ScapeGoatTreeMap::new();
    for k in 0..3000u64 {
        m.insert(k, 0);
        let n = m.len();
        // Every node lies at most log_{3/2}(len) + 1 levels down.
        assert!(depth_within_bound(deepest_level(&m).saturating_sub(1), n), "len {}", n);
        assert!(2 * m.max_len() <= 3 * m.len());
    }
}

#[test]
fn height_stays_logarithmic_under_removals() {
    let mut m = ScapeGoatTreeMap::new();
    for k in 0..1000u64 {
        m.insert((k * 7919) % 1000, 0);
    }
    for k in 0..990u64 {
        m.remove(&((k * 31) % 1000));
        let n = m.len();
        assert!(depth_within_bound(deepest_level(&m).saturating_sub(1), n), "len {}", n);
        assert!(2 * m.max_len() <= 3 * m.len());
    }
}

#[test]
fn no_tree_is_lower_than_log2() {
    let mut m = ScapeGoatTreeMap::new();
    for k in 0..500u64 {
        m.insert(k * 13 % 500, 0);
        let height = deepest_level(&m) + 1;
        assert!(m.len() < (1usize << height));
    }
}

#[test]
fn whole_rebuild_reaches_least_height() {
    let mut m = ScapeGoatTreeMap::new();
    for k in 0..300u64 {
        m.insert(k, 0);
    }
    let mut k = 0u64;
    while m.max_len() == 300 {
        m.remove(&k);
        k += 1;
    }
    // The removal that dropped the peak rebuilt the whole tree.
    let n = m.len();
    let height = deepest_level(&m) + 1;
    assert!((1usize << (height - 1)) <= n);
    assert!(n < (1usize << height));
}
