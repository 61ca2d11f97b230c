//! Positions in a tree, named by the turns taken from the root, and the laws
//! that say by position what each operation does to the tree's shape.
use vstd::prelude::*;
use crate::node::{
    Node, without_min, without_max, removed, tree_seq, tree_map, search_tree, lemma_node_facts,
};
use crate::entries::{has_key, lemma_least_entry};
use crate::display::{drawing, Side};
use crate::path::{
    turns_left, hang, reassemble, search_path, detached_toward, inserted, fill, hole_size,
    scapegoat_at, is_lowest_scapegoat, lowest_scapegoat, lemma_reassemble_split,
    lemma_reassemble_seq, lemma_hole_size_at, lemma_deep_path_has_scapegoat,
};
use crate::vine::{folded, single};
use crate::bound::within_log_bound;

verus! {

/// The subtree reached from the root of `t` by following `dirs`: `false`
/// goes to the left child, `true` to the right child.
pub open spec fn subtree_at<V>(t: Option<Box<Node<V>>>, dirs: Seq<bool>) -> Option<Box<Node<V>>>
    decreases dirs.len(),
{
    if dirs.len() == 0 {
        t
    } else {
        match t {
            None => None,
            Some(n) => subtree_at(if dirs[0] { n.right } else { n.left }, dirs.drop_first()),
        }
    }
}

/// The entry of the node at `dirs`, if a node is there.
pub open spec fn entry_at<V>(t: Option<Box<Node<V>>>, dirs: Seq<bool>) -> Option<(u64, V)> {
    match subtree_at(t, dirs) {
        None => None,
        Some(n) => Some((n.key, n.value)),
    }
}

/// The position `q` lies at or below the position `p`.
pub open spec fn extends(q: Seq<bool>, p: Seq<bool>) -> bool {
    p.len() <= q.len() && q.subrange(0, p.len() as int) == p
}

/// `d` turns, all the same way `b`.
pub open spec fn repeat(b: bool, d: nat) -> Seq<bool> {
    Seq::new(d, |i: int| b)
}

/// Nothing lies below an empty tree.
pub proof fn lemma_subtree_of_none<V>(dirs: Seq<bool>)
    ensures
        subtree_at(None::<Box<Node<V>>>, dirs) == None::<Box<Node<V>>>,
{
}

/// Following `a` and then `b` is following `a + b`.
pub proof fn lemma_subtree_concat<V>(t: Option<Box<Node<V>>>, a: Seq<bool>, b: Seq<bool>)
    ensures
        subtree_at(t, a + b) == subtree_at(subtree_at(t, a), b),
    decreases a.len(),
{
    if a.len() > 0 {
        assert((a + b).drop_first() =~= a.drop_first() + b);
        assert((a + b)[0] == a[0]);
        match t {
            None => {
                lemma_subtree_of_none::<V>(b);
            },
            Some(n) => {
                lemma_subtree_concat(if a[0] { n.right } else { n.left }, a.drop_first(), b);
            },
        }
    } else {
        assert(a + b =~= b);
    }
}

/// A position below the first turn `d` extends `seq![d] + p` exactly when
/// the rest of it extends `p`.
proof fn lemma_extends_step(q: Seq<bool>, d: bool, p: Seq<bool>)
    requires
        q.len() > 0,
        q[0] == d,
    ensures
        extends(q, seq![d] + p) == extends(q.drop_first(), p),
{
    let full = seq![d] + p;
    if extends(q, full) {
        assert(q.drop_first().subrange(0, p.len() as int) =~= q.subrange(0, full.len() as int).drop_first());
        assert(full.drop_first() =~= p);
    }
    if extends(q.drop_first(), p) {
        assert(q.subrange(0, full.len() as int) =~= seq![d] + q.drop_first().subrange(0, p.len() as int));
    }
}

/// Taking the least entry, as `pop_first` does: when `m`, reached from the
/// root of `n` by `d` left turns, has no left child, it is the leftmost node;
/// its right subtree takes its place, and every node anywhere else keeps its
/// entry and its place.
pub proof fn law_without_min_positions<V>(n: Box<Node<V>>, d: nat, m: Box<Node<V>>)
    requires
        subtree_at(Some(n), repeat(false, d)) == Some(m),
        m.left is None,
    ensures
        subtree_at(without_min(n), repeat(false, d)) == m.right,
        forall|q: Seq<bool>|
            !extends(q, repeat(false, d)) ==> #[trigger] entry_at(without_min(n), q) == entry_at(
                Some(n),
                q,
            ),
    decreases n,
{
    match n.left {
        None => {
            if d > 0 {
                assert(repeat(false, d)[0] == false);
                lemma_subtree_of_none::<V>(repeat(false, d).drop_first());
            }
            assert(repeat(false, 0) =~= Seq::<bool>::empty());
            assert forall|q: Seq<bool>| !extends(q, repeat(false, d)) implies #[trigger] entry_at(
                without_min(n),
                q,
            ) == entry_at(Some(n), q) by {
                assert(q.subrange(0, 0) =~= Seq::<bool>::empty());
            }
        },
        Some(l) => {
            if d == 0 {
                assert(repeat(false, 0) =~= Seq::<bool>::empty());
            }
            assert(d > 0);
            let rest = repeat(false, (d - 1) as nat);
            assert(repeat(false, d) =~= seq![false] + rest);
            assert(repeat(false, d).drop_first() =~= rest);
            law_without_min_positions(l, (d - 1) as nat, m);
            let w = without_min(n);
            assert forall|q: Seq<bool>| !extends(q, repeat(false, d)) implies #[trigger] entry_at(
                w,
                q,
            ) == entry_at(Some(n), q) by {
                if q.len() > 0 && !q[0] {
                    lemma_extends_step(q, false, rest);
                    assert(entry_at(without_min(l), q.drop_first()) == entry_at(Some(l), q.drop_first()));
                }
            }
        },
    }
}

/// Taking the greatest entry, as `pop_last` does: when `m`, reached from
/// the root of `n` by `d` right turns, has no right child, it is the
/// rightmost node; its left subtree takes its place, and every node anywhere
/// else keeps its entry and its place.
pub proof fn law_without_max_positions<V>(n: Box<Node<V>>, d: nat, m: Box<Node<V>>)
    requires
        subtree_at(Some(n), repeat(true, d)) == Some(m),
        m.right is None,
    ensures
        subtree_at(without_max(n), repeat(true, d)) == m.left,
        forall|q: Seq<bool>|
            !extends(q, repeat(true, d)) ==> #[trigger] entry_at(without_max(n), q) == entry_at(
                Some(n),
                q,
            ),
    decreases n,
{
    match n.right {
        None => {
            if d > 0 {
                assert(repeat(true, d)[0] == true);
                lemma_subtree_of_none::<V>(repeat(true, d).drop_first());
            }
            assert(repeat(true, 0) =~= Seq::<bool>::empty());
            assert forall|q: Seq<bool>| !extends(q, repeat(true, d)) implies #[trigger] entry_at(
                without_max(n),
                q,
            ) == entry_at(Some(n), q) by {
                assert(q.subrange(0, 0) =~= Seq::<bool>::empty());
            }
        },
        Some(r) => {
            if d == 0 {
                assert(repeat(true, 0) =~= Seq::<bool>::empty());
            }
            assert(d > 0);
            let rest = repeat(true, (d - 1) as nat);
            assert(repeat(true, d) =~= seq![true] + rest);
            assert(repeat(true, d).drop_first() =~= rest);
            law_without_max_positions(r, (d - 1) as nat, m);
            let w = without_max(n);
            assert forall|q: Seq<bool>| !extends(q, repeat(true, d)) implies #[trigger] entry_at(
                w,
                q,
            ) == entry_at(Some(n), q) by {
                if q.len() > 0 && q[0] {
                    lemma_extends_step(q, true, rest);
                    assert(entry_at(without_max(r), q.drop_first()) == entry_at(Some(r), q.drop_first()));
                }
            }
        },
    }
}

/// The key of a node below the root of `t` is a key of `t`.
pub proof fn lemma_key_below<V>(t: Option<Box<Node<V>>>, q: Seq<bool>, m: Box<Node<V>>)
    requires
        subtree_at(t, q) == Some(m),
    ensures
        has_key(tree_seq(t), m.key),
    decreases q.len(),
{
    if q.len() == 0 {
        let x = t.unwrap();
        let s = tree_seq(t);
        let i = tree_seq(x.left).len() as int;
        assert(s == tree_seq(x.left) + seq![(x.key, x.value)] + tree_seq(x.right));
        assert(s[i].0 == m.key);
    } else {
        let x = t.unwrap();
        let c = if q[0] { x.right } else { x.left };
        lemma_key_below(c, q.drop_first(), m);
        let cs = tree_seq(c);
        let s = tree_seq(t);
        let w = choose|w: int| 0 <= w < cs.len() && #[trigger] cs[w].0 == m.key;
        assert(s == tree_seq(x.left) + seq![(x.key, x.value)] + tree_seq(x.right));
        if q[0] {
            let i = tree_seq(x.left).len() + 1 + w;
            assert(s[i] == cs[w]);
            assert(s[i].0 == m.key);
        } else {
            assert(s[w] == cs[w]);
            assert(s[w].0 == m.key);
        }
    }
}

/// Removing the key of a node with at most one child, at position `p` of a
/// search tree: its child, if any, takes its position with everything below
/// it, and every node outside its subtree keeps its entry and its place.
pub proof fn law_removed_one_child<V>(t: Option<Box<Node<V>>>, p: Seq<bool>, n: Box<Node<V>>)
    requires
        search_tree(t),
        subtree_at(t, p) == Some(n),
        n.left is None || n.right is None,
    ensures
        subtree_at(removed(t, n.key), p) == if n.left is None {
            n.right
        } else {
            n.left
        },
        forall|q: Seq<bool>|
            !extends(q, p) ==> #[trigger] entry_at(removed(t, n.key), q) == entry_at(t, q),
    decreases p.len(),
{
    let k = n.key;
    let x = t.unwrap();
    lemma_node_facts(x);
    if p.len() == 0 {
        assert(x == n);
        assert(!(k < x.key) && !(x.key < k));
        assert(p =~= Seq::<bool>::empty());
        assert forall|q: Seq<bool>| !extends(q, p) implies #[trigger] entry_at(removed(t, k), q)
            == entry_at(t, q) by {
            assert(q.subrange(0, 0) =~= Seq::<bool>::empty());
        }
    } else {
        let d = p[0];
        let rest = p.drop_first();
        let c = if d { x.right } else { x.left };
        assert(subtree_at(c, rest) == Some(n));
        lemma_key_below(c, rest, n);
        assert(tree_map(c).contains_key(k));
        law_removed_one_child(c, rest, n);
        assert(p =~= seq![d] + rest);
        assert forall|q: Seq<bool>| !extends(q, p) implies #[trigger] entry_at(removed(t, k), q)
            == entry_at(t, q) by {
            if q.len() > 0 && q[0] == d {
                lemma_extends_step(q, d, rest);
                assert(entry_at(removed(c, k), q.drop_first()) == entry_at(c, q.drop_first()));
            }
        }
    }
}

/// Removing the key of a node with two children, at position `p` of a
/// search tree: its successor (the least key of its subtree above its own,
/// which lies in its right subtree) takes its position, its left subtree
/// stays its left child, its right subtree loses only the successor's node
/// (as taking the least entry does), and every node outside its subtree
/// keeps its entry and its place.
pub proof fn law_removed_two_children<V>(t: Option<Box<Node<V>>>, p: Seq<bool>, n: Box<Node<V>>)
    requires
        search_tree(t),
        subtree_at(t, p) == Some(n),
        n.left is Some,
        n.right is Some,
    ensures
        subtree_at(removed(t, n.key), p.push(false)) == n.left,
        subtree_at(removed(t, n.key), p.push(true)) == without_min(n.right.unwrap()),
        entry_at(removed(t, n.key), p) is Some,
        ({
            let s = entry_at(removed(t, n.key), p).unwrap();
            &&& n.key < s.0
            &&& tree_map(n.right).contains_key(s.0)
            &&& s.1 == tree_map(n.right)[s.0]
            &&& forall|j: u64| tree_map(Some(n)).contains_key(j) && n.key < j ==> s.0 <= j
        }),
        forall|q: Seq<bool>|
            !extends(q, p) ==> #[trigger] entry_at(removed(t, n.key), q) == entry_at(t, q),
    decreases p.len(),
{
    let k = n.key;
    let x = t.unwrap();
    lemma_node_facts(x);
    if p.len() == 0 {
        assert(x == n);
        let r = n.right.unwrap();
        let rs = tree_seq(Some(r));
        assert(rs == tree_seq(r.left) + seq![(r.key, r.value)] + tree_seq(r.right));
        assert(rs.len() > 0);
        lemma_least_entry(rs);
        let l = n.left.unwrap();
        assert(!(k < x.key) && !(x.key < k));
        assert((n.left, n.right) == (Some(l), Some(r)));
        let w = Box::new(Node { key: rs[0].0, value: rs[0].1, left: Some(l), right: without_min(r) });
        assert(removed(t, k) == Some(w));
        assert(p =~= Seq::<bool>::empty());
        assert(p.push(false) =~= seq![false]);
        assert(p.push(true) =~= seq![true]);
        assert(seq![false].drop_first() =~= Seq::<bool>::empty());
        assert(seq![true].drop_first() =~= Seq::<bool>::empty());
        assert(subtree_at(Some(l), Seq::<bool>::empty()) == Some(l));
        assert(subtree_at(Some(w), seq![false]) == Some(l));
        assert(subtree_at(without_min(r), Seq::<bool>::empty()) == without_min(r));
        assert(subtree_at(Some(w), seq![true]) == without_min(r));
        assert forall|q: Seq<bool>| !extends(q, p) implies #[trigger] entry_at(removed(t, k), q)
            == entry_at(t, q) by {
            assert(q.subrange(0, 0) =~= Seq::<bool>::empty());
        }
    } else {
        let d = p[0];
        let rest = p.drop_first();
        let c = if d { x.right } else { x.left };
        assert(subtree_at(c, rest) == Some(n));
        lemma_key_below(c, rest, n);
        assert(tree_map(c).contains_key(k));
        law_removed_two_children(c, rest, n);
        assert(p =~= seq![d] + rest);
        assert(p.push(false).drop_first() =~= rest.push(false));
        assert(p.push(true).drop_first() =~= rest.push(true));
        assert(p.push(false)[0] == d && p.push(true)[0] == d);
        assert forall|q: Seq<bool>| !extends(q, p) implies #[trigger] entry_at(removed(t, k), q)
            == entry_at(t, q) by {
            if q.len() > 0 && q[0] == d {
                lemma_extends_step(q, d, rest);
                assert(entry_at(removed(c, k), q.drop_first()) == entry_at(c, q.drop_first()));
            }
        }
    }
}

/// For each step after the first along `full`, whether the way turns there:
/// a bar in the sideways drawing exactly where it does.
pub open spec fn turn_bars(full: Seq<bool>) -> Seq<bool> {
    Seq::new((full.len() - 1) as nat, |i: int| full[i] != full[i + 1])
}

/// The side a child hangs on: `true` is the right.
pub open spec fn side_of(right: bool) -> Side {
    if right {
        Side::Right
    } else {
        Side::Left
    }
}

/// The line of the sideways drawing for the node at `q`: no bars and the
/// root's side for the root; below it, one entry per ancestor under the
/// root, a bar where the way turns at that ancestor, and the side of the
/// last step.
pub open spec fn line_for(q: Seq<bool>, key: u64) -> (Seq<bool>, Side, u64) {
    if q.len() == 0 {
        (Seq::empty(), Side::Root, key)
    } else {
        (turn_bars(q), side_of(q.last()), key)
    }
}

proof fn lemma_contains_in_parts<A>(a: Seq<A>, x: A, b: Seq<A>, y: A)
    requires
        a.contains(y) || x == y || b.contains(y),
    ensures
        (a + seq![x] + b).contains(y),
{
    let s = a + seq![x] + b;
    if a.contains(y) {
        let i = choose|i: int| 0 <= i < a.len() && a[i] == y;
        assert(s[i] == y);
    } else if x == y {
        assert(s[a.len() as int] == y);
    } else {
        let i = choose|i: int| 0 <= i < b.len() && b[i] == y;
        assert(s[a.len() + 1 + i] == y);
    }
}

/// Below a child hanging on the side `right`, the node at `q` is drawn with
/// the bars handed down, then one entry per step, a bar where the way turns.
proof fn lemma_drawing_below<V>(
    t: Option<Box<Node<V>>>,
    bars: Seq<bool>,
    right: bool,
    q: Seq<bool>,
    m: Box<Node<V>>,
)
    requires
        subtree_at(t, q) == Some(m),
    ensures
        drawing(t, bars, side_of(right)).contains(
            (
                bars + turn_bars(seq![right] + q),
                if q.len() == 0 {
                    side_of(right)
                } else {
                    side_of(q.last())
                },
                m.key,
            ),
        ),
    decreases t,
{
    let x = t.unwrap();
    let rb = bars.push(right != true);
    let lb = bars.push(right != false);
    assert(drawing(t, bars, side_of(right)) == drawing(x.right, rb, Side::Right) + seq![
        (bars, side_of(right), x.key),
    ] + drawing(x.left, lb, Side::Left));
    if q.len() == 0 {
        assert(turn_bars(seq![right] + q) =~= Seq::<bool>::empty());
        assert(bars + turn_bars(seq![right] + q) =~= bars);
        lemma_contains_in_parts(
            drawing(x.right, rb, Side::Right),
            (bars, side_of(right), x.key),
            drawing(x.left, lb, Side::Left),
            (bars, side_of(right), x.key),
        );
    } else {
        let d = q[0];
        let r = q.drop_first();
        let c = if d { x.right } else { x.left };
        let cb = bars.push(right != d);
        lemma_drawing_below(c, cb, d, r, m);
        assert(q =~= seq![d] + r);
        assert(cb + turn_bars(seq![d] + r) =~= bars + turn_bars(seq![right] + q));
        if r.len() > 0 {
            assert(r.last() == q.last());
        }
        let line = (
            bars + turn_bars(seq![right] + q),
            if q.len() == 0 {
                side_of(right)
            } else {
                side_of(q.last())
            },
            m.key,
        );
        assert(drawing(c, cb, side_of(d)).contains(line));
        lemma_contains_in_parts(
            drawing(x.right, rb, Side::Right),
            (bars, side_of(right), x.key),
            drawing(x.left, lb, Side::Left),
            line,
        );
    }
}

/// The sideways drawing, as `{:#}` prints it, has for each node of the tree
/// its line: the root alone with no bars; any other node at `q` with one
/// entry per ancestor strictly below the root, a bar exactly where the way
/// to the node turns at that ancestor, so that a left child's left subtree
/// and a right child's right subtree get spaces at every depth.
pub proof fn law_drawing_lines<V>(t: Option<Box<Node<V>>>, q: Seq<bool>, m: Box<Node<V>>)
    requires
        subtree_at(t, q) == Some(m),
    ensures
        drawing(t, Seq::empty(), Side::Root).contains(line_for(q, m.key)),
{
    let x = t.unwrap();
    let e = Seq::<bool>::empty();
    assert(drawing(t, e, Side::Root) == drawing(x.right, e, Side::Right) + seq![
        (e, Side::Root, x.key),
    ] + drawing(x.left, e, Side::Left));
    if q.len() == 0 {
        lemma_contains_in_parts(
            drawing(x.right, e, Side::Right),
            (e, Side::Root, x.key),
            drawing(x.left, e, Side::Left),
            line_for(q, m.key),
        );
    } else {
        let d = q[0];
        let r = q.drop_first();
        let c = if d { x.right } else { x.left };
        lemma_drawing_below(c, e, d, r, m);
        assert(q =~= seq![d] + r);
        assert(e + turn_bars(seq![d] + r) =~= turn_bars(q));
        if r.len() > 0 {
            assert(r.last() == q.last());
        }
        assert(drawing(c, e, side_of(d)).contains(line_for(q, m.key)));
        lemma_contains_in_parts(
            drawing(x.right, e, Side::Right),
            (e, Side::Root, x.key),
            drawing(x.left, e, Side::Left),
            line_for(q, m.key),
        );
    }
}

/// The turns the search for `key` takes from the root of `t` until it
/// leaves the tree: right at a key not above `key`, left at a greater one.
pub open spec fn search_turns<V>(t: Option<Box<Node<V>>>, key: u64) -> Seq<bool>
    decreases t,
{
    match t {
        None => Seq::empty(),
        Some(n) => seq![!(key < n.key)] + search_turns(if key < n.key { n.left } else { n.right }, key),
    }
}

/// `t` with `h` put where the search for `key` leaves the tree: with `h`
/// a single node, the tree that a plain search-tree insertion gives.
pub open spec fn hung_at_search<V>(t: Option<Box<Node<V>>>, key: u64, h: Option<Box<Node<V>>>) -> Option<
    Box<Node<V>>,
>
    decreases t,
{
    match t {
        None => h,
        Some(n) => if key < n.key {
            Some(Box::new(Node { key: n.key, value: n.value, left: hung_at_search(n.left, key, h), right: n.right }))
        } else {
            Some(Box::new(Node { key: n.key, value: n.value, left: n.left, right: hung_at_search(n.right, key, h) }))
        },
    }
}

/// The number of entries of a tree.
pub open spec fn size<V>(t: Option<Box<Node<V>>>) -> nat {
    tree_seq(t).len()
}

/// The turns a detached path takes: right where it does not turn left.
spec fn path_turns<V>(path: Seq<Box<Node<V>>>, key: u64) -> Seq<bool> {
    Seq::new(path.len(), |i: int| !turns_left(path[i], key))
}

/// A detached search path put back with `h` in its hole is `t` with `h`
/// where the search leaves it, and the path turns as the search does.
proof fn lemma_search_path_turns<V>(t: Option<Box<Node<V>>>, key: u64, h: Option<Box<Node<V>>>)
    ensures
        reassemble(search_path(t, key), key, h) == hung_at_search(t, key, h),
        path_turns(search_path(t, key), key) == search_turns(t, key),
    decreases t,
{
    match t {
        None => {
            assert(path_turns(search_path(t, key), key) =~= Seq::<bool>::empty());
        },
        Some(n) => {
            let c = if key < n.key { n.left } else { n.right };
            lemma_search_path_turns(c, key, h);
            let p = detached_toward(n, key);
            let rest = search_path(c, key);
            assert(search_path(t, key) == seq![p] + rest);
            lemma_reassemble_split(seq![p], rest, key, h);
            assert(seq![p].drop_last() =~= Seq::<Box<Node<V>>>::empty());
            let hole = reassemble(rest, key, h);
            assert(reassemble(Seq::<Box<Node<V>>>::empty(), key, Some(hang(p, key, hole))) == Some(
                hang(p, key, hole),
            ));
            assert(reassemble(seq![p], key, hole) == Some(hang(p, key, hole)));
            assert(path_turns(seq![p] + rest, key) =~= seq![!(key < n.key)] + path_turns(rest, key));
        },
    }
}

/// Following the turns of a detached path leads to its hole.
proof fn lemma_turns_reach_hole<V>(path: Seq<Box<Node<V>>>, key: u64, h: Option<Box<Node<V>>>)
    ensures
        subtree_at(reassemble(path, key, h), path_turns(path, key)) == h,
    decreases path.len(),
{
    if path.len() == 0 {
        assert(path_turns(path, key) =~= Seq::<bool>::empty());
    } else {
        let init = path.drop_last();
        let p = path.last();
        let hh = Some(hang(p, key, h));
        lemma_turns_reach_hole(init, key, hh);
        let dl = !turns_left(p, key);
        assert(path_turns(path, key) =~= path_turns(init, key) + seq![dl]);
        lemma_subtree_concat(reassemble(init, key, hh), path_turns(init, key), seq![dl]);
        assert(reassemble(path, key, h) == reassemble(init, key, hh));
        assert(seq![dl].drop_first() =~= Seq::<bool>::empty());
        assert(seq![dl][0] == dl);
        assert(subtree_at(h, Seq::<bool>::empty()) == h);
        assert(subtree_at(hh, seq![dl]) == h);
    }
}

/// Whatever is in the hole, the nodes off the turns of the path keep their
/// entries.
proof fn lemma_off_path_entries<V>(
    path: Seq<Box<Node<V>>>,
    key: u64,
    x: Option<Box<Node<V>>>,
    y: Option<Box<Node<V>>>,
    q: Seq<bool>,
)
    requires
        !extends(q, path_turns(path, key)),
    ensures
        entry_at(reassemble(path, key, x), q) == entry_at(reassemble(path, key, y), q),
    decreases path.len(),
{
    if path.len() == 0 {
        assert(path_turns(path, key) =~= Seq::<bool>::empty());
        assert(q.subrange(0, 0) =~= Seq::<bool>::empty());
    } else {
        let init = path.drop_last();
        let p = path.last();
        let hx = Some(hang(p, key, x));
        let hy = Some(hang(p, key, y));
        let pt = path_turns(init, key);
        let dl = !turns_left(p, key);
        assert(path_turns(path, key) =~= pt + seq![dl]);
        if !extends(q, pt) {
            lemma_off_path_entries(init, key, hx, hy, q);
        } else {
            let r = q.subrange(pt.len() as int, q.len() as int);
            assert(q =~= pt + r);
            lemma_subtree_concat(reassemble(init, key, hx), pt, r);
            lemma_subtree_concat(reassemble(init, key, hy), pt, r);
            lemma_turns_reach_hole(init, key, hx);
            lemma_turns_reach_hole(init, key, hy);
            if r.len() > 0 {
                if r[0] == dl {
                    assert(q.subrange(0, pt.len() + 1int) =~= pt + seq![dl]);
                    assert(false);
                }
            }
        }
    }
}

/// A rebuilding insert, seen in the tree with the new entry hung where its
/// search leaves the old tree (`plain`, of `size(plain)` entries, the entry
/// at the end of the turns `turns`). When that depth is within
/// `log_{3/2}(size(plain))`, the insert gives `plain` itself. Otherwise it
/// rebuilds the subtree at the first `j` turns, where `j` is the lowest
/// scapegoat: its child on the way holds more than two thirds of its
/// subtree (`3 * child > 2 * parent`, sizes taken from `plain`), and no node
/// below it on the way does. That subtree is folded anew from its entries,
/// and every node outside it keeps its entry and its place.
pub proof fn law_inserted_positions<V>(t: Option<Box<Node<V>>>, key: u64, value: V)
    ensures
        ({
            let turns = search_turns(t, key);
            let plain = hung_at_search(t, key, Some(single((key, value))));
            let r = inserted(t, key, value);
            &&& within_log_bound(turns.len(), size(plain)) ==> r == plain
            &&& !within_log_bound(turns.len(), size(plain)) ==> exists|j: int|
                #![trigger turns.subrange(0, j)]
                {
                    let at = turns.subrange(0, j);
                    &&& 0 <= j < turns.len()
                    &&& 3 * size(subtree_at(plain, turns.subrange(0, j + 1))) > 2 * size(
                        subtree_at(plain, at),
                    )
                    &&& forall|j2: int|
                        j < j2 < turns.len() ==> 3 * size(
                            #[trigger] subtree_at(plain, turns.subrange(0, j2 + 1)),
                        ) <= 2 * size(subtree_at(plain, turns.subrange(0, j2)))
                    &&& subtree_at(r, at) == folded(tree_seq(subtree_at(plain, at)))
                    &&& forall|q: Seq<bool>|
                        !extends(q, at) ==> #[trigger] entry_at(r, q) == entry_at(plain, q)
                }
        }),
{
    let leaf = (key, value);
    let path = search_path(t, key);
    let h = Some(single(leaf));
    lemma_search_path_turns(t, key, h);
    let turns = search_turns(t, key);
    let plain = hung_at_search(t, key, h);
    let total = fill(path, key, seq![leaf]).len();
    lemma_reassemble_seq(path, key, h);
    assert(tree_seq(h) =~= seq![leaf]) by {
        assert(tree_seq(single(leaf).left) =~= Seq::<(u64, V)>::empty());
        assert(tree_seq(single(leaf).right) =~= Seq::<(u64, V)>::empty());
    }
    assert(size(plain) == total);
    assert(turns.len() == path.len());
    if !within_log_bound(turns.len(), size(plain)) {
        lemma_deep_path_has_scapegoat(path, leaf);
        // The lowest scapegoat exists: take the highest position that is one.
        let j0 = choose|j: int| 0 <= j < path.len() && #[trigger] scapegoat_at(path, key, total, j);
        lemma_lowest_exists(path, key, total, j0);
        let j = lowest_scapegoat(path, key, total);
        assert(is_lowest_scapegoat(path, key, total, j));
        let r = inserted(t, key, value);
        let a = path.subrange(0, j);
        let b = path.subrange(j, path.len() as int);
        assert(a + b =~= path);
        let at = turns.subrange(0, j);
        assert(path_turns(a, key) =~= at);
        lemma_reassemble_split(a, b, key, h);
        let below = reassemble(b, key, h);
        let rebuilt = folded(fill(b, key, seq![leaf]));
        assert(r == reassemble(a, key, rebuilt));
        lemma_turns_reach_hole(a, key, rebuilt);
        lemma_turns_reach_hole(a, key, below);
        lemma_reassemble_seq(b, key, h);
        assert forall|q: Seq<bool>| !extends(q, at) implies #[trigger] entry_at(r, q) == entry_at(
            plain,
            q,
        ) by {
            lemma_off_path_entries(a, key, rebuilt, below, q);
        }
        lemma_size_along(t, key, value, j);
        lemma_size_along(t, key, value, j + 1);
        assert(3 * size(subtree_at(plain, turns.subrange(0, j + 1))) > 2 * size(subtree_at(plain, at)));
        assert forall|j2: int| j < j2 < turns.len() implies 3 * size(
            #[trigger] subtree_at(plain, turns.subrange(0, j2 + 1)),
        ) <= 2 * size(subtree_at(plain, turns.subrange(0, j2))) by {
            assert(!scapegoat_at(path, key, total, j2));
            lemma_size_along(t, key, value, j2);
            lemma_size_along(t, key, value, j2 + 1);
        }
    }
}

/// The subtree at the first `i` turns of the search, in the tree with the
/// new entry hung in, has the size the walk back up the path counts there.
proof fn lemma_size_along<V>(t: Option<Box<Node<V>>>, key: u64, value: V, i: int)
    requires
        0 <= i <= search_path(t, key).len(),
    ensures
        size(
            subtree_at(
                hung_at_search(t, key, Some(single((key, value)))),
                search_turns(t, key).subrange(0, i),
            ),
        ) == hole_size(
            search_path(t, key),
            key,
            fill(search_path(t, key), key, seq![(key, value)]).len(),
            i,
        ),
{
    let leaf = (key, value);
    let path = search_path(t, key);
    let h = Some(single(leaf));
    lemma_search_path_turns(t, key, h);
    let turns = search_turns(t, key);
    let plain = hung_at_search(t, key, h);
    assert(tree_seq(h) =~= seq![leaf]) by {
        assert(tree_seq(single(leaf).left) =~= Seq::<(u64, V)>::empty());
        assert(tree_seq(single(leaf).right) =~= Seq::<(u64, V)>::empty());
    }
    let ai = path.subrange(0, i);
    let bi = path.subrange(i, path.len() as int);
    assert(ai + bi =~= path);
    assert(path_turns(ai, key) =~= turns.subrange(0, i));
    lemma_reassemble_split(ai, bi, key, h);
    lemma_turns_reach_hole(ai, key, reassemble(bi, key, h));
    lemma_reassemble_seq(bi, key, h);
    lemma_hole_size_at(path, leaf, i);
}

/// Where some position of a path is a scapegoat, one of them is the lowest.
proof fn lemma_lowest_exists<V>(path: Seq<Box<Node<V>>>, key: u64, total: nat, j: int)
    requires
        0 <= j < path.len(),
        scapegoat_at(path, key, total, j),
    ensures
        exists|l: int| #[trigger] is_lowest_scapegoat(path, key, total, l),
    decreases path.len() - j,
{
    if forall|j2: int| j < j2 < path.len() ==> !#[trigger] scapegoat_at(path, key, total, j2) {
        assert(is_lowest_scapegoat(path, key, total, j));
    } else {
        let j2 = choose|j2: int| j < j2 < path.len() && #[trigger] scapegoat_at(path, key, total, j2);
        lemma_lowest_exists(path, key, total, j2);
    }
}

} // verus!
