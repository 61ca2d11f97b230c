//! The nodes of the tree and the operations that walk one path of it.
use vstd::prelude::*;
use vstd::arithmetic::power::pow;
use crate::bound::{lemma_pow_unfold, lemma_pow2_monotone};
use crate::entries::{entries_map, keys_sorted, lemma_empty, lemma_node, lemma_keys_below, lemma_keys_above,
    lemma_entry_at, lemma_update_value, key_index};

verus! {

/// A node of the binary search tree.
#[derive(Debug)]
pub struct Node<V> {
    pub key: u64,
    pub value: V,
    pub left: Option<Box<Node<V>>>,
    pub right: Option<Box<Node<V>>>,
}

/// The entries of a tree in order: left subtree, the node, right subtree.
pub open spec fn tree_seq<V>(t: Option<Box<Node<V>>>) -> Seq<(u64, V)>
    decreases t,
{
    match t {
        None => Seq::empty(),
        Some(n) => tree_seq(n.left) + seq![(n.key, n.value)] + tree_seq(n.right),
    }
}

/// The number of nodes on the longest path down from the root.
pub open spec fn height<V>(t: Option<Box<Node<V>>>) -> nat
    decreases t,
{
    match t {
        None => 0,
        Some(n) => {
            let l = height(n.left);
            let r = height(n.right);
            1 + if l < r {
                r
            } else {
                l
            }
        },
    }
}

/// A tree of height `h` holds fewer than `2^h` entries.
pub proof fn lemma_size_below_pow<V>(t: Option<Box<Node<V>>>)
    ensures
        tree_seq(t).len() < pow(2, height(t)),
    decreases t,
{
    reveal(pow);
    match t {
        None => {},
        Some(n) => {
            lemma_size_below_pow(n.left);
            lemma_size_below_pow(n.right);
            let h = height(t);
            lemma_pow2_monotone(height(n.left), (h - 1) as nat);
            lemma_pow2_monotone(height(n.right), (h - 1) as nat);
            lemma_pow_unfold(2, (h - 1) as nat);
        },
    }
}

/// The map a tree stands for.
pub open spec fn tree_map<V>(t: Option<Box<Node<V>>>) -> Map<u64, V> {
    entries_map(tree_seq(t))
}

/// A search tree: keys strictly increase in order.
pub open spec fn search_tree<V>(t: Option<Box<Node<V>>>) -> bool {
    keys_sorted(tree_seq(t))
}

/// The facts about one node of a search tree that a walk down relies on.
pub proof fn lemma_node_facts<V>(n: Box<Node<V>>)
    requires
        search_tree(Some(n)),
    ensures
        search_tree(n.left),
        search_tree(n.right),
        forall|k: u64| tree_map(n.left).contains_key(k) ==> k < n.key,
        forall|k: u64| tree_map(n.right).contains_key(k) ==> n.key < k,
        tree_map(Some(n)) == tree_map(n.left).union_prefer_right(tree_map(n.right)).insert(
            n.key,
            n.value,
        ),
        tree_seq(Some(n)).len() == tree_seq(n.left).len() + 1 + tree_seq(n.right).len(),
{
    lemma_node(tree_seq(n.left), (n.key, n.value), tree_seq(n.right));
}

/// Looks `key` up by walking down from the root.
pub fn get_in<'a, V>(t: &'a Option<Box<Node<V>>>, key: u64) -> (r: Option<&'a V>)
    requires
        search_tree(*t),
    ensures
        match r {
            Some(v) => tree_map(*t).contains_key(key) && *v == tree_map(*t)[key],
            None => !tree_map(*t).contains_key(key),
        },
{
    let mut cur = t;
    loop
        invariant
            search_tree(*cur),
            search_tree(*t),
            tree_map(*cur).contains_key(key) == tree_map(*t).contains_key(key),
            tree_map(*cur).contains_key(key) ==> tree_map(*cur)[key] == tree_map(*t)[key],
        decreases tree_seq(*cur).len(),
    {
        match cur {
            None => {
                proof {
                    lemma_empty::<V>();
                }
                return None;
            },
            Some(node) => {
                proof {
                    lemma_node_facts(*node);
                }
                if key == node.key {
                    return Some(&node.value);
                } else if key < node.key {
                    cur = &node.left;
                } else {
                    cur = &node.right;
                }
            },
        }
    }
}

/// The tree with the value under `key` replaced by `value`, same shape.
pub open spec fn replaced<V>(t: Option<Box<Node<V>>>, key: u64, value: V) -> Option<Box<Node<V>>>
    decreases t,
{
    match t {
        None => None,
        Some(n) => if key == n.key {
            Some(Box::new(Node { key: n.key, value, left: n.left, right: n.right }))
        } else if key < n.key {
            Some(
                Box::new(
                    Node { key: n.key, value: n.value, left: replaced(n.left, key, value), right: n.right },
                ),
            )
        } else {
            Some(
                Box::new(
                    Node { key: n.key, value: n.value, left: n.left, right: replaced(n.right, key, value) },
                ),
            )
        },
    }
}

/// The tree below `n` without its leftmost node, whose right subtree takes
/// its place.
pub open spec fn without_min<V>(n: Box<Node<V>>) -> Option<Box<Node<V>>>
    decreases n,
{
    match n.left {
        None => n.right,
        Some(l) => Some(
            Box::new(Node { key: n.key, value: n.value, left: without_min(l), right: n.right }),
        ),
    }
}

/// The tree below `n` without its rightmost node, whose left subtree takes
/// its place.
pub open spec fn without_max<V>(n: Box<Node<V>>) -> Option<Box<Node<V>>>
    decreases n,
{
    match n.right {
        None => n.left,
        Some(r) => Some(
            Box::new(Node { key: n.key, value: n.value, left: n.left, right: without_max(r) }),
        ),
    }
}

/// The tree without the node of `key`: a node with one child gives way to
/// it, a node with two children to its successor, the leftmost node of its
/// right subtree, which takes over both children.
pub open spec fn removed<V>(t: Option<Box<Node<V>>>, key: u64) -> Option<Box<Node<V>>>
    decreases t,
{
    match t {
        None => None,
        Some(n) => if key < n.key {
            Some(Box::new(Node { key: n.key, value: n.value, left: removed(n.left, key), right: n.right }))
        } else if n.key < key {
            Some(Box::new(Node { key: n.key, value: n.value, left: n.left, right: removed(n.right, key) }))
        } else {
            match (n.left, n.right) {
                (None, None) => None,
                (Some(l), None) => Some(l),
                (None, Some(r)) => Some(r),
                (Some(l), Some(r)) => Some(
                    Box::new(
                        Node {
                            key: tree_seq(Some(r))[0].0,
                            value: tree_seq(Some(r))[0].1,
                            left: Some(l),
                            right: without_min(r),
                        },
                    ),
                ),
            }
        },
    }
}

/// Replaces the value under `key`, which the tree holds, and hands back the
/// value it replaced.
pub fn replace_in<V>(t: Option<Box<Node<V>>>, key: u64, value: V) -> (r: (
    Option<Box<Node<V>>>,
    V,
))
    requires
        search_tree(t),
        tree_map(t).contains_key(key),
    ensures
        search_tree(r.0),
        tree_map(r.0) == tree_map(t).insert(key, value),
        tree_seq(r.0).len() == tree_seq(t).len(),
        r.1 == tree_map(t)[key],
        height(r.0) == height(t),
        r.0 == replaced(t, key, value),
    decreases t,
{
    let mut node = t.unwrap();
    proof {
        lemma_node_facts(node);
    }
    let ghost old_node = node;
    if key == node.key {
        let mut v = value;
        std::mem::swap(&mut node.value, &mut v);
        proof {
            let i = tree_seq(node.left).len() as int;
            lemma_entry_at(tree_seq(Some(old_node)), i);
            lemma_update_value(tree_seq(Some(old_node)), i, value);
            assert(tree_seq(Some(node)) =~= tree_seq(Some(old_node)).update(i, (key, value)));
        }
        (Some(node), v)
    } else if key < node.key {
        let (l, v) = replace_in(node.left.take(), key, value);
        node.left = l;
        proof {
            lemma_keys_below(tree_seq(old_node.left), tree_seq(l), (node.key, node.value), tree_seq(node.right));
            lemma_node(tree_seq(node.left), (node.key, node.value), tree_seq(node.right));
            assert(tree_map(Some(node)) =~= tree_map(Some(old_node)).insert(key, value));
        }
        (Some(node), v)
    } else {
        let (rt, v) = replace_in(node.right.take(), key, value);
        node.right = rt;
        proof {
            lemma_keys_above(tree_seq(node.left), (node.key, node.value), tree_seq(old_node.right), tree_seq(rt));
            lemma_node(tree_seq(node.left), (node.key, node.value), tree_seq(node.right));
            assert(tree_map(Some(node)) =~= tree_map(Some(old_node)).insert(key, value));
        }
        (Some(node), v)
    }
}

/// Detaches the leftmost node of a tree: its entry comes first in order,
/// and the rest of the tree keeps the other entries in order.
pub fn take_min<V>(node: Box<Node<V>>) -> (r: (Option<Box<Node<V>>>, (u64, V)))
    ensures
        tree_seq(Some(node)) == seq![r.1] + tree_seq(r.0),
        height(r.0) <= height(Some(node)),
        r.0 == without_min(node),
    decreases node,
{
    let mut node = node;
    let ghost old_node = node;
    match node.left.take() {
        None => {
            let n = *node;
            proof {
                assert(old_node.left is None);
                assert(tree_seq(old_node.left) =~= Seq::empty());
                assert(tree_seq(Some(old_node)) =~= seq![(n.key, n.value)] + tree_seq(n.right));
            }
            (n.right, (n.key, n.value))
        },
        Some(l) => {
            let (rest, first) = take_min(l);
            node.left = rest;
            proof {
                assert(tree_seq(Some(old_node)) =~= seq![first] + tree_seq(Some(node)));
            }
            (Some(node), first)
        },
    }
}

/// Detaches the rightmost node of a tree: its entry comes last in order.
pub fn take_max<V>(node: Box<Node<V>>) -> (r: (Option<Box<Node<V>>>, (u64, V)))
    ensures
        tree_seq(Some(node)) == tree_seq(r.0) + seq![r.1],
        height(r.0) <= height(Some(node)),
        r.0 == without_max(node),
    decreases node,
{
    let mut node = node;
    let ghost old_node = node;
    match node.right.take() {
        None => {
            let n = *node;
            proof {
                assert(old_node.right is None);
                assert(tree_seq(old_node.right) =~= Seq::empty());
                assert(tree_seq(Some(old_node)) =~= tree_seq(n.left) + seq![(n.key, n.value)]);
            }
            (n.left, (n.key, n.value))
        },
        Some(rt) => {
            let (rest, last) = take_max(rt);
            node.right = rest;
            proof {
                assert(tree_seq(Some(old_node)) =~= tree_seq(Some(node)) + seq![last]);
            }
            (Some(node), last)
        },
    }
}

/// Removes the entry of `key` from a search tree, if it holds one, and
/// hands it back. A node with two children takes the place of its
/// successor, the leftmost node of its right subtree.
pub fn remove_in<V>(t: Option<Box<Node<V>>>, key: u64) -> (r: (
    Option<Box<Node<V>>>,
    Option<(u64, V)>,
))
    requires
        search_tree(t),
    ensures
        search_tree(r.0),
        match r.1 {
            Some(e) => {
                &&& tree_map(t).contains_key(key)
                &&& e == (key, tree_map(t)[key])
                &&& tree_map(r.0) == tree_map(t).remove(key)
                &&& tree_seq(r.0).len() + 1 == tree_seq(t).len()
            },
            None => !tree_map(t).contains_key(key) && r.0 == t,
        },
        height(r.0) <= height(t),
        r.0 == removed(t, key),
    decreases t,
{
    match t {
        None => {
            proof {
                lemma_empty::<V>();
            }
            (None, None)
        },
        Some(mut node) => {
            proof {
                lemma_node_facts(node);
            }
            let ghost old_node = node;
            if key < node.key {
                let (l, e) = remove_in(node.left.take(), key);
                node.left = l;
                proof {
                    if e is Some {
                        lemma_keys_below(
                            tree_seq(old_node.left),
                            tree_seq(l),
                            (node.key, node.value),
                            tree_seq(node.right),
                        );
                        lemma_node(tree_seq(node.left), (node.key, node.value), tree_seq(node.right));
                        assert(tree_map(Some(node)) =~= tree_map(Some(old_node)).remove(key));
                    } else {
                        assert(tree_seq(Some(node)) =~= tree_seq(Some(old_node)));
                    }
                }
                (Some(node), e)
            } else if node.key < key {
                let (rt, e) = remove_in(node.right.take(), key);
                node.right = rt;
                proof {
                    if e is Some {
                        lemma_keys_above(
                            tree_seq(node.left),
                            (node.key, node.value),
                            tree_seq(old_node.right),
                            tree_seq(rt),
                        );
                        lemma_node(tree_seq(node.left), (node.key, node.value), tree_seq(node.right));
                        assert(tree_map(Some(node)) =~= tree_map(Some(old_node)).remove(key));
                    } else {
                        assert(tree_seq(Some(node)) =~= tree_seq(Some(old_node)));
                    }
                }
                (Some(node), e)
            } else {
                let n = *node;
                let ghost ls = tree_seq(n.left);
                let ghost rs = tree_seq(n.right);
                let rest = match (n.left, n.right) {
                    (None, None) => None,
                    (Some(l), None) => Some(l),
                    (None, Some(rt)) => Some(rt),
                    (Some(l), Some(rt)) => {
                        let (r2, succ) = take_min(rt);
                        let joined = Box::new(Node { key: succ.0, value: succ.1, left: Some(l), right: r2 });
                        proof {
                            assert(tree_seq(Some(joined)) =~= ls + rs);
                        }
                        Some(joined)
                    },
                };
                proof {
                    assert(tree_seq(rest) =~= ls + rs);
                    lemma_node(ls, (n.key, n.value), rs);
                    assert(!tree_map(n.left).union_prefer_right(tree_map(n.right)).contains_key(key));
                    assert(tree_map(rest) =~= tree_map(Some(old_node)).remove(key));
                    lemma_entry_at(tree_seq(Some(old_node)), ls.len() as int);
                }
                (rest, Some((n.key, n.value)))
            }
        },
    }
}

/// The entry that comes first in key order, found by walking left.
pub fn first_in<'a, V>(t: &'a Option<Box<Node<V>>>) -> (r: Option<(&'a u64, &'a V)>)
    ensures
        match r {
            Some((k, v)) => tree_seq(*t).len() > 0 && (*k, *v) == tree_seq(*t)[0],
            None => tree_seq(*t).len() == 0,
        },
{
    match t {
        None => None,
        Some(root) => {
            let mut cur: &Box<Node<V>> = root;
            loop
                invariant
                    tree_seq(*t).len() > 0,
                    tree_seq(Some(*cur)).len() > 0,
                    tree_seq(*t)[0] == tree_seq(Some(*cur))[0],
                decreases tree_seq(Some(*cur)).len(),
            {
                match &cur.left {
                    None => {
                        proof {
                            assert(tree_seq(cur.left) =~= Seq::empty());
                            assert(tree_seq(Some(*cur)) =~= seq![(cur.key, cur.value)] + tree_seq(
                                cur.right,
                            ));
                        }
                        return Some((&cur.key, &cur.value));
                    },
                    Some(l) => {
                        proof {
                            assert(tree_seq(Some(*cur))[0] == tree_seq(Some(*l))[0]);
                        }
                        cur = l;
                    },
                }
            }
        },
    }
}

/// The entry that comes last in key order, found by walking right.
pub fn last_in<'a, V>(t: &'a Option<Box<Node<V>>>) -> (r: Option<(&'a u64, &'a V)>)
    ensures
        match r {
            Some((k, v)) => tree_seq(*t).len() > 0 && (*k, *v) == tree_seq(*t).last(),
            None => tree_seq(*t).len() == 0,
        },
{
    match t {
        None => None,
        Some(root) => {
            let mut cur: &Box<Node<V>> = root;
            loop
                invariant
                    tree_seq(*t).len() > 0,
                    tree_seq(Some(*cur)).len() > 0,
                    tree_seq(*t).last() == tree_seq(Some(*cur)).last(),
                decreases tree_seq(Some(*cur)).len(),
            {
                match &cur.right {
                    None => {
                        proof {
                            assert(tree_seq(cur.right) =~= Seq::empty());
                            assert(tree_seq(Some(*cur)) =~= tree_seq(cur.left) + seq![
                                (cur.key, cur.value),
                            ]);
                        }
                        return Some((&cur.key, &cur.value));
                    },
                    Some(rt) => {
                        proof {
                            assert(tree_seq(Some(*cur)).last() == tree_seq(Some(*rt)).last());
                        }
                        cur = rt;
                    },
                }
            }
        },
    }
}

/// Finds the value under `key` for writing: the tree afterwards holds, at
/// the same place in order, whatever was written through the reference.
#[verifier::spinoff_prover]
pub fn get_mut_in<'a, V>(t: &'a mut Option<Box<Node<V>>>, key: u64) -> (r: Option<&'a mut V>)
    requires
        search_tree(*old(t)),
    ensures
        !tree_map(*old(t)).contains_key(key) ==> r is None && *final(t) == *old(t),
        tree_map(*old(t)).contains_key(key) ==> {
            &&& r is Some
            &&& *r.unwrap() == tree_map(*old(t))[key]
            &&& tree_seq(*final(t)) == tree_seq(*old(t)).update(
                key_index(tree_seq(*old(t)), key),
                (key, *final(r.unwrap())),
            )
        },
        height(*final(t)) == height(*old(t)),
        tree_map(*old(t)).contains_key(key) ==> *final(t) == replaced(
            *old(t),
            key,
            *final(r.unwrap()),
        ),
    decreases *old(t),
    no_unwind
{
    match t {
        None => {
            proof {
                lemma_empty::<V>();
                assert(tree_seq(*old(t)) =~= Seq::<(u64, V)>::empty());
                assert(!tree_map(*old(t)).contains_key(key));
            }
            None
        },
        Some(node) => {
            proof {
                lemma_node_facts(*node);
            }
            if key == node.key {
                proof {
                    lemma_entry_at(tree_seq(*old(t)), tree_seq(node.left).len() as int);
                }
                Some(&mut node.value)
            } else if key < node.key {
                get_mut_in(&mut node.left, key)
            } else {
                get_mut_in(&mut node.right, key)
            }
        },
    }
}

} // verus!
