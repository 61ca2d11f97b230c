use scapegoat_tree::display::{Side, Token};
use scapegoat_tree::ScapeGoatTreeMap;

/// The map as `{}` prints it: header, then the nested form.
fn shown(m: &ScapeGoatTreeMap<u32>) -> String {
    let mut s = format!("ScapeGoatTree {{\n  len: {}, max: {}\n   tree:\n", m.len(), m.max_len());
    if m.is_empty() {
        s.push('∅');
    } else {
        for token in m.display_tokens() {
            match token {
                Token::Open => s.push('('),
                Token::Close => s.push(')'),
                Token::LeftArrow => s.push_str(" ← "),
                Token::RightArrow => s.push_str(" → "),
                Token::Entry(k) => s.push_str(&format!("{}:{}", k, m.get(&k).unwrap())),
            }
        }
    }
    s.push_str("\n}");
    s
}

/// The map as `{:#}` prints it: header, then the sideways drawing.
fn shown_sideways(m: &ScapeGoatTreeMap<u32>) -> String {
    let mut s = format!("ScapeGoatTree {{\n  len: {}, max: {}\n   tree:\n", m.len(), m.max_len());
    for line in m.display_lines() {
        let value = m.get(&line.key).unwrap();
        let mut prefix = String::from("   ");
        for bar in &line.bars {
            prefix.push_str(if *bar { "⎹   " } else { "    " });
        }
        match line.side {
            Side::Root => s.push_str(&format!("{}:{}\n", line.key, value)),
            Side::Right => s.push_str(&format!("{} ˏ——— {}:{}\n", prefix, line.key, value)),
            Side::Left => s.push_str(&format!("{} `——— {}:{}\n", prefix, line.key, value)),
        }
    }
    s.push_str("\n}");
    s
}

fn three() -> ScapeGoatTreeMap<u32> {
    ScapeGoatTreeMap::from_iter(vec![(2, 20), (1, 10), (3, 30)])
}

fn chain(n: u64) -> ScapeGoatTreeMap<u32> {
    ScapeGoatTreeMap::from_iter((1..=n).map(|k| (k, k as u32)).collect())
}

#[test]
fn collected_three_print_balanced() {
    let m = three();
    assert_eq!(m.len(), 3);
    assert_eq!(m.max_len(), 3);
    assert_eq!(shown(&m), "ScapeGoatTree {\n  len: 3, max: 3\n   tree:\n((1:10) ← 2:20 → (3:30))\n}");
}

#[test]
fn collected_peak_is_the_count() {
    let m = ScapeGoatTreeMap::from_iter(vec![(1, 1u32), (2, 2), (1, 3), (2, 4), (5, 5)]);
    assert_eq!(m.len(), 3);
    assert_eq!(m.max_len(), 3);
    assert_eq!(m.get(&1), Some(&3));
    assert_eq!(m.get(&2), Some(&4));
}

#[test]
fn removing_an_absent_key_keeps_the_tree() {
    let mut m = three();
    let before = m.display_tokens();
    assert_eq!(m.remove_entry(&4), None);
    assert_eq!(m.len(), 3);
    assert_eq!(m.display_tokens(), before);
    assert_eq!(shown(&m), "ScapeGoatTree {\n  len: 3, max: 3\n   tree:\n((1:10) ← 2:20 → (3:30))\n}");
}

#[test]
fn removing_below_two_thirds_rebuilds() {
    let mut m = ScapeGoatTreeMap::from_iter(vec![(1, 10u32), (2, 20)]);
    assert_eq!(m.remove_entry(&1), Some((1, 10)));
    assert_eq!(m.len(), 1);
    assert_eq!(m.get(&1), None);
    assert_eq!(shown(&m), "ScapeGoatTree {\n  len: 1, max: 1\n   tree:\n(2:20)\n}");
}

#[test]
fn removing_a_node_with_two_children_lifts_its_successor() {
    let mut m = ScapeGoatTreeMap::new();
    for k in [4u64, 2, 6, 1, 3, 5, 7] {
        m.insert(k, k as u32 * 10);
    }
    assert_eq!(m.remove(&4), Some(40));
    assert_eq!(m.max_len(), 7);
    assert_eq!(
        shown(&m),
        "ScapeGoatTree {\n  len: 6, max: 7\n   tree:\n(((1:10) ← 2:20 → (3:30)) ← 5:50 → (6:60 → (7:70)))\n}"
    );
}

#[test]
fn insert_too_deep_rebuilds_at_scapegoat_printed() {
    let mut m = chain(4);
    assert_eq!(m.insert(5, 5), None);
    assert_eq!(m.len(), 5);
    assert_eq!(
        shown(&m),
        "ScapeGoatTree {\n  len: 5, max: 5\n   tree:\n(1:1 → ((2:2 → (3:3)) ← 4:4 → (5:5)))\n}"
    );
}

#[test]
fn pop_first_of_three_printed() {
    let mut m = three();
    assert_eq!(m.pop_first(), Some((1, 10)));
    assert_eq!(m.len(), 2);
    assert_eq!(shown(&m), "ScapeGoatTree {\n  len: 2, max: 3\n   tree:\n(2:20 → (3:30))\n}");
}

#[test]
fn pop_last_of_three_printed() {
    let mut m = three();
    assert_eq!(m.pop_last(), Some((3, 30)));
    assert_eq!(m.len(), 2);
    assert_eq!(shown(&m), "ScapeGoatTree {\n  len: 2, max: 3\n   tree:\n((1:10) ← 2:20)\n}");
}

#[test]
fn sideways_drawing_of_five_printed() {
    let m = chain(5);
    assert_eq!(
        shown_sideways(&m),
        "ScapeGoatTree {\n  len: 5, max: 5\n   tree:\n        ˏ——— 5:5\n    ˏ——— 4:4\n   ⎹   ⎹    ˏ——— 3:3\n   ⎹    `——— 2:2\n1:1\n\n}"
    );
}

#[test]
fn empty_map_printed() {
    let m: ScapeGoatTreeMap<u32> = ScapeGoatTreeMap::new();
    assert_eq!(shown(&m), "ScapeGoatTree {\n  len: 0, max: 0\n   tree:\n∅\n}");
}

#[test]
fn insert_over_a_key_keeps_the_shape() {
    let mut m = chain(5);
    let tokens = m.display_tokens();
    let lines: Vec<_> = m.display_lines().into_iter().map(|l| (l.bars, l.side, l.key)).collect();
    assert_eq!(m.insert(3, 33), Some(3));
    assert_eq!(m.display_tokens(), tokens);
    let after: Vec<_> = m.display_lines().into_iter().map(|l| (l.bars, l.side, l.key)).collect();
    assert_eq!(after, lines);
    assert_eq!(m.max_len(), 5);
    assert_eq!(
        shown(&m),
        "ScapeGoatTree {\n  len: 5, max: 5\n   tree:\n(1:1 → ((2:2 → (3:33)) ← 4:4 → (5:5)))\n}"
    );
}

#[test]
fn writing_through_get_mut_keeps_the_shape() {
    let mut m = chain(5);
    let tokens = m.display_tokens();
    *m.get_mut(&2).unwrap() = 22;
    assert_eq!(m.display_tokens(), tokens);
    assert_eq!(m.get(&2), Some(&22));
    assert!(m.get_mut(&9).is_none());
    assert_eq!(m.display_tokens(), tokens);
}

#[test]
fn rebuilding_insert_is_no_higher() {
    // Before: the chain 1 → 2 → 3 → 4 has four levels; the fifth key would
    // make five, and the rebuild at key 2 keeps it at four.
    let mut m = chain(4);
    let before = m.display_lines().iter().map(|l| l.bars.len()).max().unwrap();
    m.insert(5, 5);
    let after = m.display_lines().iter().map(|l| l.bars.len()).max().unwrap();
    assert!(after <= before);
}
