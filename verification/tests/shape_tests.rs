use scapegoat_tree::display::Side;
use scapegoat_tree::display::Token::{Close, Entry, LeftArrow, Open, RightArrow};
use scapegoat_tree::ScapeGoatTreeMap;

fn lines_of(m: &ScapeGoatTreeMap<u32>) -> Vec<(Vec<bool>, Side, u64)> {
    m.display_lines()
        .into_iter()
        .map(|l| (l.bars, l.side, l.key))
        .collect()
}

#[test]
fn nested_tokens_of_three_nodes() {
    let mut m = ScapeGoatTreeMap::new();
    m.insert(2, 20u32);
    m.insert(1, 10);
    m.insert(3, 30);
    assert_eq!(
        m.display_tokens(),
        vec![Open, Open, Entry(1), Close, LeftArrow, Entry(2), RightArrow, Open, Entry(3), Close, Close]
    );
}

#[test]
fn nested_tokens_of_empty_map() {
    let m: ScapeGoatTreeMap<u32> = ScapeGoatTreeMap::new();
    assert!(m.display_tokens().is_empty());
    assert!(m.display_lines().is_empty());
}

#[test]
fn sideways_lines_of_three_nodes() {
    let mut m = ScapeGoatTreeMap::new();
    m.insert(2, 20u32);
    m.insert(1, 10);
    m.insert(3, 30);
    assert_eq!(
        lines_of(&m),
        vec![(vec![], Side::Right, 3), (vec![], Side::Root, 2), (vec![], Side::Left, 1)]
    );
}

#[test]
fn sideways_bars_below_children() {
    let mut m = ScapeGoatTreeMap::new();
    for k in [4u64, 2, 6, 1, 3, 5, 7] {
        m.insert(k, k as u32);
    }
    assert_eq!(
        lines_of(&m),
        vec![
            (vec![false], Side::Right, 7),
            (vec![], Side::Right, 6),
            (vec![true], Side::Left, 5),
            (vec![], Side::Root, 4),
            (vec![true], Side::Right, 3),
            (vec![], Side::Left, 2),
            (vec![false], Side::Left, 1),
        ]
    );
}

#[test]
fn ascending_chain_stays_until_too_deep() {
    let mut m = ScapeGoatTreeMap::new();
    for k in 1..=4u64 {
        m.insert(k, 0u32);
    }
    // (3/2)^3 <= 4: the fourth key still hangs at depth 3.
    assert_eq!(
        m.display_tokens(),
        vec![
            Open, Entry(1), RightArrow, Open, Entry(2), RightArrow, Open, Entry(3), RightArrow, Open,
            Entry(4), Close, Close, Close, Close
        ]
    );
}

#[test]
fn too_deep_insert_rebuilds_at_the_scapegoat() {
    let mut m = ScapeGoatTreeMap::new();
    for k in 1..=5u64 {
        m.insert(k, 0u32);
    }
    // (3/2)^4 > 5: the walk back up stops at key 2, whose right side holds
    // 3 of its 4 entries, and rebuilds 2..=5 below key 1.
    assert_eq!(
        m.display_tokens(),
        vec![
            Open, Entry(1), RightArrow, Open, Open, Entry(2), RightArrow, Open, Entry(3), Close,
            Close, LeftArrow, Entry(4), RightArrow, Open, Entry(5), Close, Close, Close
        ]
    );
    assert_eq!(m.max_len(), 5);
}

#[test]
fn max_len_tracks_peak_and_resets_on_whole_rebuild() {
    let mut m = ScapeGoatTreeMap::new();
    for k in 0..9u64 {
        m.insert(k, 0u32);
    }
    assert_eq!(m.max_len(), 9);
    // 3 * 8 < 2 * 9 fails, 3 * 7 < 18 fails, 3 * 5 < 18 holds at len 5.
    m.remove(&0);
    m.remove(&1);
    assert_eq!(m.max_len(), 9);
    m.remove(&2);
    assert_eq!(m.max_len(), 9);
    m.remove(&3);
    assert_eq!(m.len(), 5);
    assert_eq!(m.max_len(), 5);
}

#[test]
fn whole_rebuild_after_removals_is_balanced() {
    let mut m = ScapeGoatTreeMap::new();
    for k in 1..=9u64 {
        m.insert(k, 0u32);
    }
    for k in 1..=4u64 {
        m.remove(&k);
    }
    // Five entries remain, rebuilt into a tree of height 3.
    let lines = lines_of(&m);
    assert_eq!(lines.len(), 5);
    assert!(lines.iter().all(|(bars, _, _)| bars.len() <= 1));
}

#[test]
fn emptying_keeps_max_len() {
    let mut m = ScapeGoatTreeMap::new();
    m.insert(1, 0u32);
    m.insert(2, 0u32);
    m.remove(&1);
    assert_eq!(m.max_len(), 1);
    m.remove(&2);
    assert_eq!(m.len(), 0);
    assert_eq!(m.max_len(), 1);
}
