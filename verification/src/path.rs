//! The search path of a key, detached from the tree node by node, and the
//! walk back up it that finds a scapegoat and puts the tree together again.
use vstd::prelude::*;
use crate::entries::{
    entries_map, keys_sorted, lemma_node, lemma_entry_at, lemma_concat, lemma_single,
    lemma_sorted_concat,
};
use crate::node::{
    Node, tree_seq, search_tree, tree_map, lemma_node_facts, height, lemma_size_below_pow,
};
use crate::vine::{Vine, folded, single};
use crate::bound::{within_log_bound, lemma_pow_unfold, lemma_pow_positive, lemma_pow2_monotone};
use vstd::arithmetic::power::pow;
use std::collections::VecDeque;

verus! {

/// Below `p`, the path to `key` turns left.
pub open spec fn turns_left<V>(p: Box<Node<V>>, key: u64) -> bool {
    key < p.key
}

/// The entries that come before the hole of a path to `key`: the nodes of
/// the path where it turns right, each with its left subtree.
pub open spec fn path_prefix<V>(path: Seq<Box<Node<V>>>, key: u64) -> Seq<(u64, V)>
    decreases path.len(),
{
    if path.len() == 0 {
        Seq::empty()
    } else {
        let p = path.last();
        path_prefix(path.drop_last(), key) + if turns_left(p, key) {
            Seq::empty()
        } else {
            tree_seq(p.left) + seq![(p.key, p.value)]
        }
    }
}

/// The entries that come after the hole of a path to `key`: the nodes of
/// the path where it turns left, each with its right subtree.
pub open spec fn path_suffix<V>(path: Seq<Box<Node<V>>>, key: u64) -> Seq<(u64, V)>
    decreases path.len(),
{
    if path.len() == 0 {
        Seq::empty()
    } else {
        let p = path.last();
        (if turns_left(p, key) {
            seq![(p.key, p.value)] + tree_seq(p.right)
        } else {
            Seq::empty()
        }) + path_suffix(path.drop_last(), key)
    }
}

/// Each node of the path has given up the child on the side the path takes.
pub open spec fn detached<V>(path: Seq<Box<Node<V>>>, key: u64) -> bool {
    forall|j: int|
        0 <= j < path.len() ==> if turns_left(#[trigger] path[j], key) {
            path[j].left is None
        } else {
            path[j].right is None
        }
}

/// What the tree looks like with `mid` put in the hole of the path.
pub open spec fn fill<V>(path: Seq<Box<Node<V>>>, key: u64, mid: Seq<(u64, V)>) -> Seq<(u64, V)> {
    path_prefix(path, key) + mid + path_suffix(path, key)
}

proof fn lemma_push_path<V>(path: Seq<Box<Node<V>>>, p: Box<Node<V>>, key: u64)
    ensures
        path_prefix(path.push(p), key) == path_prefix(path, key) + if turns_left(p, key) {
            Seq::empty()
        } else {
            tree_seq(p.left) + seq![(p.key, p.value)]
        },
        path_suffix(path.push(p), key) == (if turns_left(p, key) {
            seq![(p.key, p.value)] + tree_seq(p.right)
        } else {
            Seq::empty()
        }) + path_suffix(path, key),
{
    assert(path.push(p).drop_last() =~= path);
}

/// `p` with `t` hung back on the side the path to `key` takes.
pub open spec fn hang<V>(p: Box<Node<V>>, key: u64, t: Option<Box<Node<V>>>) -> Box<Node<V>> {
    if turns_left(p, key) {
        Box::new(Node { key: p.key, value: p.value, left: t, right: p.right })
    } else {
        Box::new(Node { key: p.key, value: p.value, left: p.left, right: t })
    }
}

/// The tree a detached path makes with `t` hung into its hole.
pub open spec fn reassemble<V>(path: Seq<Box<Node<V>>>, key: u64, t: Option<Box<Node<V>>>) -> Option<
    Box<Node<V>>,
>
    decreases path.len(),
{
    if path.len() == 0 {
        t
    } else {
        reassemble(path.drop_last(), key, Some(hang(path.last(), key, t)))
    }
}

/// The entries of a reassembled tree are those of the hole, between the
/// entries before and after it.
pub proof fn lemma_reassemble_seq<V>(path: Seq<Box<Node<V>>>, key: u64, t: Option<Box<Node<V>>>)
    ensures
        tree_seq(reassemble(path, key, t)) == fill(path, key, tree_seq(t)),
    decreases path.len(),
{
    if path.len() > 0 {
        let p = path.last();
        let init = path.drop_last();
        lemma_reassemble_seq(init, key, Some(hang(p, key, t)));
        lemma_push_path(init, p, key);
        assert(init.push(p) =~= path);
        assert(fill(path, key, tree_seq(t)) =~= fill(init, key, tree_seq(Some(hang(p, key, t)))));
    } else {
        assert(fill(path, key, tree_seq(t)) =~= tree_seq(t));
    }
}

/// Reassembling in two steps: the lower part of the path first.
pub proof fn lemma_reassemble_split<V>(
    a: Seq<Box<Node<V>>>,
    b: Seq<Box<Node<V>>>,
    key: u64,
    t: Option<Box<Node<V>>>,
)
    ensures
        reassemble(a + b, key, t) == reassemble(a, key, reassemble(b, key, t)),
    decreases b.len(),
{
    if b.len() == 0 {
        assert(a + b =~= a);
    } else {
        let init = b.drop_last();
        lemma_reassemble_split(a, init, key, Some(hang(b.last(), key, t)));
        assert((a + b).drop_last() =~= a + init);
        assert((a + b).last() == b.last());
    }
}

/// A taller tree in the hole makes a reassembled tree no lower.
pub proof fn lemma_reassemble_monotone<V>(
    path: Seq<Box<Node<V>>>,
    key: u64,
    t1: Option<Box<Node<V>>>,
    t2: Option<Box<Node<V>>>,
)
    requires
        height(t1) <= height(t2),
    ensures
        height(reassemble(path, key, t1)) <= height(reassemble(path, key, t2)),
    decreases path.len(),
{
    if path.len() > 0 {
        let p = path.last();
        assert(height(Some(hang(p, key, t1))) <= height(Some(hang(p, key, t2))));
        lemma_reassemble_monotone(path.drop_last(), key, Some(hang(p, key, t1)), Some(hang(p, key, t2)));
    }
}

/// Each node of the path adds a level above the hole.
pub proof fn lemma_reassemble_deep<V>(path: Seq<Box<Node<V>>>, key: u64, t: Option<Box<Node<V>>>)
    ensures
        height(reassemble(path, key, t)) >= path.len() + height(t),
    decreases path.len(),
{
    if path.len() > 0 {
        let p = path.last();
        lemma_reassemble_deep(path.drop_last(), key, Some(hang(p, key, t)));
    }
}

/// A reassembled tree is no higher than the tree with an empty hole or
/// than the hole's own depth plus its height.
pub proof fn lemma_reassemble_height<V>(path: Seq<Box<Node<V>>>, key: u64, t: Option<Box<Node<V>>>)
    ensures
        height(reassemble(path, key, t)) <= height(reassemble(path, key, None)) || height(
            reassemble(path, key, t),
        ) <= path.len() + height(t),
    decreases path.len(),
{
    if path.len() > 0 {
        let p = path.last();
        let init = path.drop_last();
        let ht = Some(hang(p, key, t));
        let hn = Some(hang(p, key, None));
        lemma_reassemble_height(init, key, ht);
        lemma_reassemble_monotone(init, key, None, hn);
        lemma_reassemble_deep(init, key, hn);
        if height(t) < height(hn) {
            assert(height(ht) <= height(hn));
            lemma_reassemble_monotone(init, key, ht, hn);
        }
    }
}

/// `n` given up its child on the side of `key`.
pub open spec fn detached_toward<V>(n: Box<Node<V>>, key: u64) -> Box<Node<V>> {
    if key < n.key {
        Box::new(Node { key: n.key, value: n.value, left: None, right: n.right })
    } else {
        Box::new(Node { key: n.key, value: n.value, left: n.left, right: None })
    }
}

/// The nodes from the root towards `key`, each detached from the child the
/// path goes on to.
pub open spec fn search_path<V>(t: Option<Box<Node<V>>>, key: u64) -> Seq<Box<Node<V>>>
    decreases t,
{
    match t {
        None => Seq::empty(),
        Some(n) => if key < n.key {
            seq![detached_toward(n, key)] + search_path(n.left, key)
        } else {
            seq![detached_toward(n, key)] + search_path(n.right, key)
        },
    }
}

/// Position `j` holds the lowest scapegoat of the path.
pub open spec fn is_lowest_scapegoat<V>(path: Seq<Box<Node<V>>>, key: u64, total: nat, j: int) -> bool {
    &&& 0 <= j < path.len()
    &&& scapegoat_at(path, key, total, j)
    &&& forall|j2: int| j < j2 < path.len() ==> !#[trigger] scapegoat_at(path, key, total, j2)
}

/// Where the walk back up the path stops: at the lowest scapegoat, or at
/// the root when there is none.
pub open spec fn lowest_scapegoat<V>(path: Seq<Box<Node<V>>>, key: u64, total: nat) -> int {
    if exists|j: int| #[trigger] is_lowest_scapegoat(path, key, total, j) {
        choose|j: int| #[trigger] is_lowest_scapegoat(path, key, total, j)
    } else {
        0
    }
}

/// The tree after a new entry `(key, value)` comes in: as a leaf at the end
/// of its search path, or, where that is deeper than `log_{3/2}` of the new
/// count, with the subtree of the lowest scapegoat (the root when there is
/// none) folded anew around it.
pub open spec fn inserted<V>(t: Option<Box<Node<V>>>, key: u64, value: V) -> Option<Box<Node<V>>> {
    let path = search_path(t, key);
    let leaf = (key, value);
    let total = fill(path, key, seq![leaf]).len();
    if within_log_bound(path.len(), total) {
        reassemble(path, key, Some(single(leaf)))
    } else {
        let j = lowest_scapegoat(path, key, total);
        reassemble(
            path.subrange(0, j),
            key,
            folded(fill(path.subrange(j, path.len() as int), key, seq![leaf])),
        )
    }
}

/// Walks from the root towards `key`, which the tree does not hold, and
/// detaches each node it passes from the child it goes on to. The last
/// node of the path is the parent of the place where `key` belongs.
pub fn reverse_path<V>(tree: Option<Box<Node<V>>>, key: u64) -> (path: Vec<Box<Node<V>>>)
    requires
        search_tree(tree),
        !tree_map(tree).contains_key(key),
    ensures
        fill(path@, key, Seq::empty()) == tree_seq(tree),
        reassemble(path@, key, None) == tree,
        path@ == search_path(tree, key),
        detached(path@, key),
        forall|i: int|
            0 <= i < path_prefix(path@, key).len() ==> #[trigger] path_prefix(path@, key)[i].0
                < key,
        forall|i: int|
            0 <= i < path_suffix(path@, key).len() ==> key < #[trigger] path_suffix(
                path@,
                key,
            )[i].0,
        path@.len() <= tree_seq(tree).len(),
{
    let ghost whole = tree_seq(tree);
    let mut path: Vec<Box<Node<V>>> = Vec::new();
    let mut cur = tree;
    proof {
        assert(fill(path@, key, tree_seq(cur)) =~= whole);
    }
    loop
        invariant
            fill(path@, key, tree_seq(cur)) == whole,
            reassemble(path@, key, cur) == tree,
            path@ + search_path(cur, key) == search_path(tree, key),
            whole == tree_seq(tree),
            search_tree(cur),
            keys_sorted(whole),
            !tree_map(cur).contains_key(key),
            detached(path@, key),
            forall|i: int|
                0 <= i < path_prefix(path@, key).len() ==> #[trigger] path_prefix(path@, key)[i].0
                    < key,
            forall|i: int|
                0 <= i < path_suffix(path@, key).len() ==> key < #[trigger] path_suffix(
                    path@,
                    key,
                )[i].0,
            path@.len() + tree_seq(cur).len() <= whole.len(),
        decreases tree_seq(cur).len(),
    {
        match cur {
            None => {
                proof {
                    assert(fill(path@, key, Seq::empty()) =~= whole);
                    assert(path@ + search_path(cur, key) =~= path@);
                }
                return path;
            },
            Some(mut node) => {
                proof {
                    lemma_node_facts(node);
                }
                let ghost old_node = node;
                let ghost old_path = path@;
                let ghost pre = path_prefix(old_path, key);
                let ghost suf = path_suffix(old_path, key);
                let ghost ls = tree_seq(old_node.left);
                let ghost rs = tree_seq(old_node.right);
                let ghost x = (old_node.key, old_node.value);
                proof {
                    assert(whole =~= pre + ls + seq![x] + rs + suf);
                }
                if key < node.key {
                    cur = node.left.take();
                    path.push(node);
                    proof {
                        assert(hang(node, key, cur) == old_node);
                        assert(path@.drop_last() =~= old_path);
                        assert(node == detached_toward(old_node, key));
                        assert(path@ + search_path(cur, key) =~= old_path + search_path(
                            Some(old_node),
                            key,
                        ));
                        lemma_push_path(old_path, node, key);
                        assert(fill(path@, key, tree_seq(cur)) =~= whole);
                        let s2 = path_suffix(path@, key);
                        assert(s2 =~= seq![x] + rs + suf);
                        assert forall|i: int| 0 <= i < s2.len() implies key < #[trigger] s2[i].0 by {
                            if 1 <= i < 1 + rs.len() {
                                lemma_entry_at(rs, i - 1);
                                assert(s2[i] == rs[i - 1]);
                            } else if i >= 1 + rs.len() {
                                assert(s2[i] == suf[i - 1 - rs.len()]);
                            }
                        }
                        assert(path_prefix(path@, key) =~= pre);
                        assert(detached(path@, key)) by {
                            assert forall|j: int| 0 <= j < path@.len() implies (if turns_left(
                                #[trigger] path@[j],
                                key,
                            ) {
                                path@[j].left is None
                            } else {
                                path@[j].right is None
                            }) by {
                                if j < old_path.len() {
                                    assert(path@[j] == old_path[j]);
                                }
                            }
                        }
                    }
                } else {
                    cur = node.right.take();
                    path.push(node);
                    proof {
                        assert(hang(node, key, cur) == old_node);
                        assert(path@.drop_last() =~= old_path);
                        assert(node == detached_toward(old_node, key));
                        assert(path@ + search_path(cur, key) =~= old_path + search_path(
                            Some(old_node),
                            key,
                        ));
                        assert(!(key == old_node.key)) by {
                            lemma_entry_at(tree_seq(Some(old_node)), ls.len() as int);
                        }
                        lemma_push_path(old_path, node, key);
                        assert(fill(path@, key, tree_seq(cur)) =~= whole);
                        let p2 = path_prefix(path@, key);
                        assert(p2 =~= pre + ls + seq![x]);
                        assert forall|i: int| 0 <= i < p2.len() implies #[trigger] p2[i].0 < key by {
                            if pre.len() <= i < pre.len() + ls.len() {
                                lemma_entry_at(ls, i - pre.len());
                                assert(p2[i] == ls[i - pre.len()]);
                            } else if i < pre.len() {
                                assert(p2[i] == pre[i]);
                            }
                        }
                        assert(path_suffix(path@, key) =~= suf);
                        assert(detached(path@, key)) by {
                            assert forall|j: int| 0 <= j < path@.len() implies (if turns_left(
                                #[trigger] path@[j],
                                key,
                            ) {
                                path@[j].left is None
                            } else {
                                path@[j].right is None
                            }) by {
                                if j < old_path.len() {
                                    assert(path@[j] == old_path[j]);
                                }
                            }
                        }
                    }
                }
            },
        }
    }
}

/// The number of entries in the subtree below the first `j` nodes of a path
/// to `key`, once the entries of the whole tree number `total`.
pub open spec fn hole_size<V>(path: Seq<Box<Node<V>>>, key: u64, total: nat, j: int) -> int {
    total - path_prefix(path.subrange(0, j), key).len() - path_suffix(
        path.subrange(0, j),
        key,
    ).len()
}

/// The node at position `j` of the path is a scapegoat: the subtree of its
/// child on the path holds more than two thirds of its own subtree.
pub open spec fn scapegoat_at<V>(path: Seq<Box<Node<V>>>, key: u64, total: nat, j: int) -> bool {
    hole_size(path, key, total, j + 1) > 2 * (hole_size(path, key, total, j) - hole_size(
        path,
        key,
        total,
        j + 1,
    ))
}

/// Where no node on the path is a scapegoat, each subtree holds at most two
/// thirds of its parent's: `3^t` times the bottom size is at most `2^t`
/// times the size `t` levels up.
proof fn lemma_weight_decay<V>(path: Seq<Box<Node<V>>>, key: u64, total: nat, t: nat)
    requires
        t <= path.len(),
        forall|j: int| 0 <= j < path.len() ==> !#[trigger] scapegoat_at(path, key, total, j),
    ensures
        pow(3, t) * hole_size(path, key, total, path.len() as int) <= pow(2, t) * hole_size(
            path,
            key,
            total,
            path.len() - t,
        ),
    decreases t,
{
    reveal(pow);
    if t > 0 {
        lemma_weight_decay(path, key, total, (t - 1) as nat);
        let j = path.len() - t;
        assert(!scapegoat_at(path, key, total, j));
        let below = hole_size(path, key, total, j + 1);
        let here = hole_size(path, key, total, j);
        let bottom = hole_size(path, key, total, path.len() as int);
        let a = pow(3, (t - 1) as nat);
        let b = pow(2, (t - 1) as nat);
        lemma_pow_unfold(3, (t - 1) as nat);
        lemma_pow_unfold(2, (t - 1) as nat);
        lemma_pow_positive(2, (t - 1) as nat);
        assert(3 * a * bottom <= 2 * b * here) by (nonlinear_arith)
            requires
                a * bottom <= b * below,
                3 * below <= 2 * here,
                b > 0,
        ;
    }
}

/// A path deeper than `log_{3/2}` of the size of the tree passes through a
/// scapegoat.
pub proof fn lemma_deep_path_has_scapegoat<V>(path: Seq<Box<Node<V>>>, leaf: (u64, V))
    requires
        !within_log_bound(path.len(), fill(path, leaf.0, seq![leaf]).len()),
    ensures
        exists|j: int|
            0 <= j < path.len() && #[trigger] scapegoat_at(
                path,
                leaf.0,
                fill(path, leaf.0, seq![leaf]).len(),
                j,
            ),
{
    let key = leaf.0;
    let total = fill(path, key, seq![leaf]).len();
    assert(path.subrange(0, path.len() as int) =~= path);
    assert(path.subrange(0, 0) =~= Seq::<Box<Node<V>>>::empty());
    assert(hole_size(path, key, total, path.len() as int) == 1);
    assert(hole_size(path, key, total, 0) == total);
    if forall|j: int| 0 <= j < path.len() ==> !#[trigger] scapegoat_at(path, key, total, j) {
        lemma_weight_decay(path, key, total, path.len());
        assert(path.len() - path.len() == 0);
    }
}

/// Walks back up a detached path from the new entry `leaf`, gathering the
/// subtrees it passes into one vine, and stops at the first node where the
/// side the walk came from holds more than two thirds of the subtree: the
/// scapegoat. The vine, scapegoat included, is rebuilt into a balanced
/// subtree; what remains of the path is handed back with it. When no node
/// qualifies, the whole tree is rebuilt.
pub fn find_scapegoat<V>(leaf: (u64, V), path: Vec<Box<Node<V>>>) -> (r: (
    Box<Node<V>>,
    Vec<Box<Node<V>>>,
))
    requires
        detached(path@, leaf.0),
        fill(path@, leaf.0, seq![leaf]).len() <= usize::MAX,
    ensures
        fill(r.1@, leaf.0, tree_seq(Some(r.0))) == fill(path@, leaf.0, seq![leaf]),
        r.1@ == path@.subrange(0, r.1@.len() as int),
        r.1@.len() > 0 ==> scapegoat_at(
            path@,
            leaf.0,
            fill(path@, leaf.0, seq![leaf]).len(),
            r.1@.len() as int,
        ),
        forall|j: int|
            r.1@.len() < j < path@.len() ==> !#[trigger] scapegoat_at(
                path@,
                leaf.0,
                fill(path@, leaf.0, seq![leaf]).len(),
                j,
            ),
        !within_log_bound(path@.len(), fill(path@, leaf.0, seq![leaf]).len()) ==> scapegoat_at(
            path@,
            leaf.0,
            fill(path@, leaf.0, seq![leaf]).len(),
            r.1@.len() as int,
        ),
        pow(2, (height(Some(r.0)) - 1) as nat) <= tree_seq(Some(r.0)).len(),
        path@.len() > 0 ==> r.1@.len() < path@.len(),
        Some(r.0) == folded(
            fill(path@.subrange(r.1@.len() as int, path@.len() as int), leaf.0, seq![leaf]),
        ),
        r.1@.len() == lowest_scapegoat(path@, leaf.0, fill(path@, leaf.0, seq![leaf]).len()),
{
    let key = leaf.0;
    let ghost total = fill(path@, key, seq![leaf]);
    let ghost full_path = path@;
    let mut path = path;
    let mut items: VecDeque<(u64, V)> = VecDeque::new();
    items.push_back(leaf);
    let mut vine = Vine { items };
    proof {
        assert(vine.seq() =~= seq![leaf]);
    }
    let mut old: usize = 0;
    let mut new: usize = 1;
    proof {
        assert(full_path.subrange(0, full_path.len() as int) =~= full_path);
    }
    loop
        invariant_except_break
            forall|j: int|
                path@.len() <= j < full_path.len() ==> !#[trigger] scapegoat_at(
                    full_path,
                    key,
                    total.len(),
                    j,
                ),
        invariant
            fill(path@, key, vine.seq()) == total,
            total.len() <= usize::MAX,
            detached(path@, key),
            old + new == vine.seq().len(),
            vine.seq().len() > 0,
            path@ == full_path.subrange(0, path@.len() as int),
            full_path.len() >= path@.len(),
            old + new == hole_size(full_path, key, total.len(), path@.len() as int),
        ensures
            fill(path@, key, vine.seq()) == total,
            vine.seq().len() > 0,
            path@ == full_path.subrange(0, path@.len() as int),
            path@.len() < full_path.len() || full_path.len() == 0,
            scapegoat_at(full_path, key, total.len(), path@.len() as int) || (path@.len() == 0
                && forall|j: int|
                0 <= j < full_path.len() ==> !#[trigger] scapegoat_at(
                    full_path,
                    key,
                    total.len(),
                    j,
                )),
            forall|j: int|
                path@.len() < j < full_path.len() ==> !#[trigger] scapegoat_at(
                    full_path,
                    key,
                    total.len(),
                    j,
                ),
        decreases path@.len(),
    {
        let ghost before = path@;
        match path.pop() {
            None => {
                break ;
            },
            Some(p) => {
                proof {
                    assert(before =~= path@.push(p));
                    lemma_push_path(path@, p, key);
                    assert(before[before.len() - 1] == p);
                    assert(detached(path@, key)) by {
                        assert forall|j: int| 0 <= j < path@.len() implies (if turns_left(
                            #[trigger] path@[j],
                            key,
                        ) {
                            path@[j].left is None
                        } else {
                            path@[j].right is None
                        }) by {
                            assert(path@[j] == before[j]);
                        }
                    }
                    assert(if turns_left(p, key) {
                        p.left is None
                    } else {
                        p.right is None
                    });
                }
                if key < p.key {
                    let side = Vine::from_tree(p);
                    vine.concat(side);
                    proof {
                        assert(tree_seq(p.left) =~= Seq::empty());
                        assert(fill(path@, key, vine.seq()) =~= total);
                    }
                } else {
                    let mut side = Vine::from_tree(p);
                    side.concat(vine);
                    vine = side;
                    proof {
                        assert(tree_seq(p.right) =~= Seq::empty());
                        assert(fill(path@, key, vine.seq()) =~= total);
                    }
                }
                proof {
                    assert(path@ =~= full_path.subrange(0, path@.len() as int));
                    assert(vine.seq().len() <= total.len());
                }
                let ghost j = path@.len() as int;
                proof {
                    assert(path@.subrange(0, j) =~= full_path.subrange(0, j));
                    assert(before =~= full_path.subrange(0, j + 1));
                }
                old = old + new;
                new = vine.items.len() - old;
                if old as u128 > 2 * (new as u128) {
                    break ;
                }
            },
        }
    }
    proof {
        if !within_log_bound(full_path.len(), total.len()) {
            lemma_deep_path_has_scapegoat(full_path, leaf);
        }
        let j = path@.len() as int;
        let lower = full_path.subrange(j, full_path.len() as int);
        assert(path@ + lower =~= full_path);
        lemma_fill_split(path@, lower, key, seq![leaf]);
        let x = fill(lower, key, seq![leaf]);
        let pre = path_prefix(path@, key);
        let suf = path_suffix(path@, key);
        assert(pre + vine.seq() + suf == pre + x + suf);
        assert(vine.seq() =~= (pre + vine.seq() + suf).subrange(
            pre.len() as int,
            (pre.len() + vine.seq().len()) as int,
        ));
        assert(vine.seq().len() == x.len());
        assert(x =~= (pre + x + suf).subrange(pre.len() as int, (pre.len() + x.len()) as int));
        let tl = total.len();
        if exists|jj: int| #[trigger] is_lowest_scapegoat(full_path, key, tl, jj) {
            let jj = choose|jj: int| #[trigger] is_lowest_scapegoat(full_path, key, tl, jj);
            if jj < j {
                assert(scapegoat_at(full_path, key, tl, j));
            } else if jj > j {
                assert(!scapegoat_at(full_path, key, tl, jj));
            }
        } else if j > 0 {
            assert(is_lowest_scapegoat(full_path, key, tl, j));
        }
    }
    (vine.into_tree(), path)
}

/// Hangs `sub` into the hole of a detached path and links the path back
/// together from the bottom up.
pub fn restore_path<V>(sub: Box<Node<V>>, full: Vec<Box<Node<V>>>, key: u64) -> (t: Box<Node<V>>)
    ensures
        tree_seq(Some(t)) == fill(full@, key, tree_seq(Some(sub))),
        Some(t) == reassemble(full@, key, Some(sub)),
{
    let ghost total = fill(full@, key, tree_seq(Some(sub)));
    let mut path = full;
    let mut cld = sub;
    loop
        invariant
            fill(path@, key, tree_seq(Some(cld))) == total,
            total == fill(full@, key, tree_seq(Some(sub))),
            reassemble(path@, key, Some(cld)) == reassemble(full@, key, Some(sub)),
        decreases path@.len(),
    {
        let ghost before = path@;
        match path.pop() {
            None => {
                proof {
                    assert(path_prefix(path@, key) =~= Seq::empty());
                    assert(path_suffix(path@, key) =~= Seq::empty());
                    assert(tree_seq(Some(cld)) =~= total);
                }
                return cld;
            },
            Some(mut p) => {
                proof {
                    assert(before =~= path@.push(p));
                    lemma_push_path(path@, p, key);
                }
                if key < p.key {
                    p.left = Some(cld);
                } else {
                    p.right = Some(cld);
                }
                proof {
                    assert(fill(path@, key, tree_seq(Some(p))) =~= total);
                    assert(p == hang(before.last(), key, Some(cld)));
                    assert(before.drop_last() =~= path@);
                }
                cld = p;
            },
        }
    }
}

/// Putting a new entry into the hole of the search path of its key keeps
/// the entries in key order and adds the key to the map.
pub proof fn lemma_fill_new_entry<V>(path: Seq<Box<Node<V>>>, x: (u64, V))
    requires
        keys_sorted(fill(path, x.0, Seq::empty())),
        forall|i: int|
            0 <= i < path_prefix(path, x.0).len() ==> #[trigger] path_prefix(path, x.0)[i].0 < x.0,
        forall|i: int|
            0 <= i < path_suffix(path, x.0).len() ==> x.0 < #[trigger] path_suffix(path, x.0)[i].0,
    ensures
        keys_sorted(fill(path, x.0, seq![x])),
        entries_map(fill(path, x.0, seq![x])) == entries_map(fill(path, x.0, Seq::empty())).insert(
            x.0,
            x.1,
        ),
        fill(path, x.0, seq![x]).len() == fill(path, x.0, Seq::empty()).len() + 1,
{
    let pre = path_prefix(path, x.0);
    let suf = path_suffix(path, x.0);
    assert(fill(path, x.0, Seq::empty()) =~= pre + suf);
    lemma_concat(pre, suf);
    lemma_single(x);
    let xs = seq![x];
    lemma_sorted_concat(pre, xs);
    let px = pre + xs;
    assert forall|i: int, j: int| 0 <= i < px.len() && 0 <= j < suf.len() implies #[trigger] px[i].0
        < #[trigger] suf[j].0 by {
        if i < pre.len() {
            assert(px[i] == pre[i]);
        } else {
            assert(px[i] == x);
        }
    }
    lemma_sorted_concat(px, suf);
    assert(fill(path, x.0, xs) =~= pre + xs + suf);
    lemma_node(pre, x, suf);
}

/// The entries around the hole of a path split at any node of it.
pub proof fn lemma_fill_split<V>(
    a: Seq<Box<Node<V>>>,
    b: Seq<Box<Node<V>>>,
    key: u64,
    mid: Seq<(u64, V)>,
)
    ensures
        path_prefix(a + b, key) == path_prefix(a, key) + path_prefix(b, key),
        path_suffix(a + b, key) == path_suffix(b, key) + path_suffix(a, key),
        fill(a + b, key, mid) == fill(a, key, fill(b, key, mid)),
    decreases b.len(),
{
    if b.len() == 0 {
        assert(a + b =~= a);
        assert(path_prefix(a + b, key) =~= path_prefix(a, key) + path_prefix(b, key));
        assert(path_suffix(a + b, key) =~= path_suffix(b, key) + path_suffix(a, key));
    } else {
        let init = b.drop_last();
        lemma_fill_split(a, init, key, mid);
        assert((a + b).drop_last() =~= a + init);
        assert((a + b).last() == b.last());
        assert(path_prefix(a + b, key) =~= path_prefix(a, key) + path_prefix(b, key));
        assert(path_suffix(a + b, key) =~= path_suffix(b, key) + path_suffix(a, key));
    }
    assert(fill(a + b, key, mid) =~= fill(a, key, fill(b, key, mid)));
}

/// The size of the subtree below the first `j` nodes of the path, once
/// `leaf` is in the hole, is that of the rest of the path filled with it.
pub proof fn lemma_hole_size_at<V>(path: Seq<Box<Node<V>>>, leaf: (u64, V), j: int)
    requires
        0 <= j <= path.len(),
    ensures
        hole_size(path, leaf.0, fill(path, leaf.0, seq![leaf]).len(), j) == fill(
            path.subrange(j, path.len() as int),
            leaf.0,
            seq![leaf],
        ).len(),
{
    let a = path.subrange(0, j);
    let b = path.subrange(j, path.len() as int);
    assert(a + b =~= path);
    lemma_fill_split(a, b, leaf.0, seq![leaf]);
}

/// A tree of `2^h - 1` entries and height at most `h` is perfect: each
/// child of its root holds `2^(h-1) - 1` entries.
pub proof fn lemma_perfect_children<V>(n: Box<Node<V>>, h: nat)
    requires
        h >= 1,
        tree_seq(Some(n)).len() + 1 == pow(2, h),
        height(Some(n)) <= h,
    ensures
        tree_seq(n.left).len() + 1 == pow(2, (h - 1) as nat),
        tree_seq(n.right).len() + 1 == pow(2, (h - 1) as nat),
{
    lemma_size_below_pow(n.left);
    lemma_size_below_pow(n.right);
    lemma_pow2_monotone(height(n.left), (h - 1) as nat);
    lemma_pow2_monotone(height(n.right), (h - 1) as nat);
    lemma_pow_unfold(2, (h - 1) as nat);
}

/// Rebuilding at the scapegoat never makes the tree higher than it was
/// before the new entry came in.
///
/// The subtree of the scapegoat, new entry included, holds `S` entries and
/// sits `j` levels down. Without the new entry it fits in the height `h`
/// left below level `j`, so `S <= 2^h`; and `S = 2^h` would make it a
/// perfect subtree plus one entry, whose root is no scapegoat. So the
/// rebuilt subtree, of least height, fits in `h` levels.
pub proof fn lemma_rebuild_no_higher<V>(
    path: Seq<Box<Node<V>>>,
    leaf: (u64, V),
    rest: Seq<Box<Node<V>>>,
    sub: Box<Node<V>>,
)
    requires
        rest.len() < path.len(),
        rest == path.subrange(0, rest.len() as int),
        fill(rest, leaf.0, tree_seq(Some(sub))) == fill(path, leaf.0, seq![leaf]),
        scapegoat_at(path, leaf.0, fill(path, leaf.0, seq![leaf]).len(), rest.len() as int),
        pow(2, (height(Some(sub)) - 1) as nat) <= tree_seq(Some(sub)).len(),
    ensures
        height(reassemble(rest, leaf.0, Some(sub))) <= height(reassemble(path, leaf.0, None)),
{
    let key = leaf.0;
    let total = fill(path, key, seq![leaf]).len();
    let j = rest.len() as int;
    let lower = path.subrange(j, path.len() as int);
    assert(rest + lower =~= path);
    lemma_reassemble_split(rest, lower, key, None);
    let u = reassemble(lower, key, None);
    let old_tree = reassemble(path, key, None);
    assert(old_tree == reassemble(rest, key, u));
    lemma_reassemble_height(rest, key, Some(sub));
    lemma_reassemble_monotone(rest, key, None, u);
    lemma_reassemble_deep(rest, key, u);
    let h = (height(old_tree) - j) as nat;
    let size = tree_seq(Some(sub)).len();
    // The size of the rebuilt subtree is the hole size at `j`.
    lemma_hole_size_at(path, leaf, j);
    lemma_fill_split(rest, lower, key, seq![leaf]);
    lemma_reassemble_seq(lower, key, None);
    assert(fill(lower, key, seq![leaf]).len() == fill(lower, key, Seq::empty()).len() + 1);
    assert(hole_size(path, key, total, j) == size) by {
        assert(fill(rest, key, tree_seq(Some(sub))).len() == path_prefix(rest, key).len() + size
            + path_suffix(rest, key).len());
    }
    assert(size == tree_seq(u).len() + 1);
    lemma_size_below_pow(u);
    lemma_pow2_monotone(height(u), h);
    if size == pow(2, h) {
        // The old subtree is perfect; its root would not be a scapegoat.
        let below = path.subrange(j + 1, path.len() as int);
        assert(seq![path[j]] + below =~= lower);
        lemma_reassemble_split(seq![path[j]], below, key, None);
        let w = reassemble(below, key, None);
        let top = seq![path[j]];
        assert(top.drop_last() =~= Seq::<Box<Node<V>>>::empty());
        assert(top.last() == path[j]);
        assert(reassemble(top, key, w) == reassemble(top.drop_last(), key, Some(hang(path[j], key, w))));
        assert(reassemble(Seq::<Box<Node<V>>>::empty(), key, Some(hang(path[j], key, w))) == Some(
            hang(path[j], key, w),
        ));
        assert(u == Some(hang(path[j], key, w)));
        lemma_reassemble_deep(lower, key, None);
        assert(h >= 1);
        lemma_perfect_children(hang(path[j], key, w), h);
        assert(tree_seq(w).len() + 1 == pow(2, (h - 1) as nat));
        lemma_hole_size_at(path, leaf, j + 1);
        lemma_reassemble_seq(below, key, None);
        assert(hole_size(path, key, total, j + 1) == tree_seq(w).len() + 1);
        lemma_pow_unfold(2, (h - 1) as nat);
        assert(false);
    }
    if height(Some(sub)) > h {
        lemma_pow2_monotone(h, (height(Some(sub)) - 1) as nat);
    }
}

} // verus!
