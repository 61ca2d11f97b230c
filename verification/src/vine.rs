//! Vines: the entries of a subtree laid out in key order, and the
//! rotations that fold a vine back into a balanced tree.
use vstd::prelude::*;
use std::collections::VecDeque;
use crate::node::{Node, tree_seq, height};
use crate::bound::{lemma_pow_unfold, lemma_pow2_monotone};
use vstd::arithmetic::power::pow;
use vstd::arithmetic::div_mod::{
    lemma_hoist_over_denominator, lemma_div_is_ordered, lemma_div_multiples_vanish,
};

verus! {

/// The entries of a subtree, in key order, ready to be rebuilt.
pub struct Vine<V> {
    pub items: VecDeque<(u64, V)>,
}

impl<V> Vine<V> {
    /// The entries, in order.
    pub open spec fn seq(&self) -> Seq<(u64, V)> {
        self.items@
    }

    /// Flattens a subtree into a vine by right rotations: while the top
    /// node has a left child, that child is rotated up; then the top entry
    /// is taken off and the walk goes on with its right subtree.
    pub fn from_tree(root: Box<Node<V>>) -> (v: Self)
        ensures
            v.seq() == tree_seq(Some(root)),
            v.seq().len() > 0,
    {
        let ghost whole = tree_seq(Some(root));
        let mut items: VecDeque<(u64, V)> = VecDeque::new();
        let mut rest: Option<Box<Node<V>>> = Some(root);
        loop
            invariant
                items@ + tree_seq(rest) == whole,
                whole == tree_seq(Some(root)),
                whole.len() > 0,
            decreases tree_seq(rest).len(),
        {
            match rest {
                None => {
                    proof {
                        assert(items@ =~= whole);
                    }
                    return Vine { items };
                },
                Some(top) => {
                    let mut cur = top;
                    loop
                        invariant
                            tree_seq(Some(cur)) == tree_seq(Some(top)),
                        ensures
                            tree_seq(Some(cur)) == tree_seq(Some(top)),
                            cur.left is None,
                        decreases tree_seq(cur.left).len(),
                    {
                        let ghost before = tree_seq(Some(cur));
                        let ghost old_cur = cur;
                        match cur.left.take() {
                            None => {
                                break ;
                            },
                            Some(mut l) => {
                                let ghost old_l = l;
                                cur.left = l.right.take();
                                l.right = Some(cur);
                                proof {
                                    assert(old_cur.left == Some(old_l));
                                    let mid = tree_seq(Some(cur));
                                    assert(mid == tree_seq(old_l.right) + seq![(cur.key, cur.value)]
                                        + tree_seq(cur.right));
                                    assert(tree_seq(Some(l)) == tree_seq(old_l.left) + seq![
                                        (old_l.key, old_l.value),
                                    ] + mid);
                                    assert(before == tree_seq(Some(old_l)) + seq![
                                        (cur.key, cur.value),
                                    ] + tree_seq(cur.right));
                                    assert(tree_seq(Some(l)) =~= before);
                                }
                                cur = l;
                            },
                        }
                    }
                    let n = *cur;
                    proof {
                        assert(tree_seq(n.left) =~= Seq::empty());
                        assert(tree_seq(Some(top)) =~= seq![(n.key, n.value)] + tree_seq(n.right));
                    }
                    items.push_back((n.key, n.value));
                    proof {
                        assert(items@ + tree_seq(n.right) =~= whole);
                    }
                    rest = n.right;
                },
            }
        }
    }

    /// Appends `other`, whose entries all come after those of `self`.
    pub fn concat(&mut self, other: Self)
        ensures
            final(self).seq() == old(self).seq() + other.seq(),
    {
        let mut other = other;
        self.items.append(&mut other.items);
    }
}

/// What a node of a spine contributes in order: its left subtree, then its
/// own entry. The right links of a spine are not yet set.
pub open spec fn part<V>(n: Box<Node<V>>) -> Seq<(u64, V)> {
    tree_seq(n.left) + seq![(n.key, n.value)]
}

/// The height of the left subtree of a spine node.
pub open spec fn left_height<V>(n: Box<Node<V>>) -> nat {
    height(n.left)
}

/// Every node of the spine at position `j` would sit `j` levels below the
/// top of the tree that links the spine: the spine is within height `b`
/// when `j + 1 + left_height` stays within `b` for the top `n` positions
/// counted as position 0, and below them each position counts one more.
pub open spec fn spine_within<V>(sp: Seq<Box<Node<V>>>, n: int, b: int) -> bool {
    forall|j: int|
        0 <= j < sp.len() ==> left_height(#[trigger] sp[j]) + 1 + (if j >= n {
            j - n + 1
        } else {
            0
        }) <= b
}

/// The entries of a spine, from its top node down.
pub open spec fn spine_seq<V>(sp: Seq<Box<Node<V>>>) -> Seq<(u64, V)>
    decreases sp.len(),
{
    if sp.len() == 0 {
        Seq::empty()
    } else {
        spine_seq(sp.drop_last()) + part(sp.last())
    }
}

proof fn lemma_spine_front<V>(sp: Seq<Box<Node<V>>>)
    requires
        sp.len() > 0,
    ensures
        spine_seq(sp) == part(sp[0]) + spine_seq(sp.drop_first()),
    decreases sp.len(),
{
    if sp.len() == 1 {
        assert(sp.drop_last() =~= Seq::<Box<Node<V>>>::empty());
        assert(sp.drop_first() =~= Seq::<Box<Node<V>>>::empty());
        assert(spine_seq(sp) =~= part(sp[0]) + spine_seq(sp.drop_first()));
    } else {
        lemma_spine_front(sp.drop_last());
        assert(sp.drop_last().drop_first() =~= sp.drop_first().drop_last());
        assert(sp.drop_first().last() == sp.last());
        assert(spine_seq(sp) =~= part(sp[0]) + spine_seq(sp.drop_first()));
    }
}

proof fn lemma_spine_push<V>(sp: Seq<Box<Node<V>>>, x: Box<Node<V>>)
    ensures
        spine_seq(sp.push(x)) == spine_seq(sp) + part(x),
{
    assert(sp.push(x).drop_last() =~= sp);
}


/// The node that rotating `lower` over `upper` gives: `upper`, with the
/// left subtree of `lower` as its right child, becomes the left child of
/// `lower`.
pub open spec fn rotated<V>(upper: Box<Node<V>>, lower: Box<Node<V>>) -> Box<Node<V>> {
    Box::new(
        Node {
            key: lower.key,
            value: lower.value,
            left: Some(
                Box::new(Node { key: upper.key, value: upper.value, left: upper.left, right: lower.left }),
            ),
            right: lower.right,
        },
    )
}

/// A node of one entry and no children.
pub open spec fn single<V>(e: (u64, V)) -> Box<Node<V>> {
    Box::new(Node { key: e.0, value: e.1, left: None, right: None })
}

/// The entries laid out as a spine of single nodes.
pub open spec fn spine_of<V>(s: Seq<(u64, V)>) -> Seq<Box<Node<V>>> {
    Seq::new(s.len(), |i: int| single(s[i]))
}

/// The first folding pass from a given state: `out` is done, `rest` is to
/// go, `i` counts the positions passed, and the next rotation comes at
/// position `m`, the `k`-th of the `uc` rotations spread over `n`.
pub open spec fn spread_from<V>(
    out: Seq<Box<Node<V>>>,
    rest: Seq<Box<Node<V>>>,
    i: int,
    k: int,
    m: int,
    n: int,
    uc: int,
) -> Seq<Box<Node<V>>>
    decreases rest.len(),
{
    if rest.len() == 0 {
        out
    } else if rest.len() == 1 {
        out.push(rest[0])
    } else if i == m {
        spread_from(
            out.push(rotated(rest[0], rest[1])),
            rest.subrange(2, rest.len() as int),
            i + 2,
            k + 1,
            k * n / uc,
            n,
            uc,
        )
    } else {
        spread_from(out.push(rest[0]), rest.subrange(1, rest.len() as int), i + 1, k, m, n, uc)
    }
}

/// The first folding pass over a spine of `n` nodes with `uc` rotations:
/// the top node stays.
pub open spec fn spread<V>(sp: Seq<Box<Node<V>>>, n: int, uc: int) -> Seq<Box<Node<V>>> {
    spread_from(seq![sp[0]], sp.subrange(1, sp.len() as int), 0, 1, 0, n, uc)
}

/// One folding pass: the top `m` pairs rotated into one node each.
pub open spec fn compressed<V>(sp: Seq<Box<Node<V>>>, m: nat) -> Seq<Box<Node<V>>>
    decreases m,
{
    if m == 0 || sp.len() < 2 {
        sp
    } else {
        seq![rotated(sp[0], sp[1])] + compressed(sp.subrange(2, sp.len() as int), (m - 1) as nat)
    }
}

/// The folding passes from a count of `n` down to one.
pub open spec fn compressed_all<V>(sp: Seq<Box<Node<V>>>, n: nat) -> Seq<Box<Node<V>>>
    decreases n,
{
    if n > 1 {
        compressed_all(compressed(sp, n / 2), n / 2)
    } else {
        sp
    }
}

/// A spine linked into a tree through right children.
pub open spec fn chain<V>(sp: Seq<Box<Node<V>>>) -> Option<Box<Node<V>>>
    decreases sp.len(),
{
    if sp.len() == 0 {
        None
    } else {
        Some(
            Box::new(
                Node {
                    key: sp[0].key,
                    value: sp[0].value,
                    left: sp[0].left,
                    right: chain(sp.subrange(1, sp.len() as int)),
                },
            ),
        )
    }
}

/// The largest power of two not above `n`.
pub open spec fn top_power_of_two(n: nat) -> nat {
    pow(2, choose|e: nat| #[trigger] pow(2, e) <= n < 2 * pow(2, e)) as nat
}

/// The tree that folding the entries `s` gives: a first pass spreads the
/// surplus over a complete size, then passes halve the spine down to one.
pub open spec fn folded<V>(s: Seq<(u64, V)>) -> Option<Box<Node<V>>> {
    let n = s.len() as int;
    let t = top_power_of_two(s.len()) as int;
    let uc = n - t + 1;
    let sp = spine_of(s);
    if uc != t {
        chain(compressed_all(spread(sp, n, uc), (n - uc) as nat))
    } else {
        chain(compressed_all(sp, n as nat))
    }
}

/// Takes the top node off a spine.
fn pop_top<V>(spine: &mut VecDeque<Box<Node<V>>>) -> (x: Box<Node<V>>)
    requires
        old(spine)@.len() > 0,
    ensures
        final(spine)@ == old(spine)@.drop_first(),
        x == old(spine)@[0],
        spine_seq(old(spine)@) == part(x) + spine_seq(final(spine)@),
{
    proof {
        lemma_spine_front(spine@);
    }
    let x = spine.pop_front().unwrap();
    proof {
        assert(spine@ =~= old(spine)@.drop_first());
    }
    x
}

/// Adds a node at the bottom of a spine.
fn push_bottom<V>(spine: &mut VecDeque<Box<Node<V>>>, x: Box<Node<V>>)
    ensures
        final(spine)@ == old(spine)@.push(x),
        spine_seq(final(spine)@) == spine_seq(old(spine)@) + part(x),
{
    proof {
        lemma_spine_push(spine@, x);
    }
    spine.push_back(x);
}

/// Rotates the lower of two neighbouring spine nodes over the upper one:
/// the upper node becomes the left child of the lower one, and their
/// entries stay in order.
fn rotate_pair<V>(upper: Box<Node<V>>, lower: Box<Node<V>>) -> (r: Box<Node<V>>)
    ensures
        r == rotated(upper, lower),
        part(r) == part(upper) + part(lower),
        left_height(r) == 1 + if left_height(upper) < left_height(lower) {
            left_height(lower)
        } else {
            left_height(upper)
        },
{
    let mut upper = upper;
    let mut lower = lower;
    let ghost u = upper;
    let ghost l = lower;
    upper.right = lower.left.take();
    lower.left = Some(upper);
    proof {
        assert(tree_seq(lower.left) == tree_seq(u.left) + seq![(u.key, u.value)] + tree_seq(
            l.left,
        ));
        assert(part(lower) =~= part(u) + part(l));
    }
    lower
}

/// Lays the entries of a vine out as a spine of single nodes.
fn vine_to_spine<V>(vine: Vine<V>) -> (spine: VecDeque<Box<Node<V>>>)
    ensures
        spine_seq(spine@) == vine.seq(),
        spine@.len() == vine.seq().len(),
        forall|j: int| 0 <= j < spine@.len() ==> left_height(#[trigger] spine@[j]) == 0,
        spine@ == spine_of(vine.seq()),
{
    let mut items = vine.items;
    let mut spine: VecDeque<Box<Node<V>>> = VecDeque::new();
    loop
        invariant
            spine_seq(spine@) + items@ == vine.seq(),
            spine@.len() + items@.len() == vine.seq().len(),
            forall|j: int| 0 <= j < spine@.len() ==> left_height(#[trigger] spine@[j]) == 0,
            spine@ == spine_of(vine.seq().subrange(0, spine@.len() as int)),
            items@ == vine.seq().subrange(spine@.len() as int, vine.seq().len() as int),
        decreases items@.len(),
    {
        match items.pop_front() {
            None => {
                proof {
                    assert(spine_seq(spine@) =~= vine.seq());
                    assert(vine.seq().subrange(0, spine@.len() as int) =~= vine.seq());
                }
                return spine;
            },
            Some(entry) => {
                let node = Box::new(Node { key: entry.0, value: entry.1, left: None, right: None });
                proof {
                    assert(part(node) =~= seq![entry]);
                }
                let ghost before = spine@;
                push_bottom(&mut spine, node);
                proof {
                    assert(spine_seq(spine@) + items@ =~= vine.seq());
                    assert(entry == vine.seq()[before.len() as int]);
                    assert(spine@ =~= spine_of(vine.seq().subrange(0, spine@.len() as int)));
                    assert(items@ =~= vine.seq().subrange(spine@.len() as int, vine.seq().len() as int));
                }
            },
        }
    }
}

/// Links a spine into a tree through right children, from the bottom up.
fn spine_to_tree<V>(sp: VecDeque<Box<Node<V>>>, Ghost(b): Ghost<int>) -> (t: Box<Node<V>>)
    requires
        sp@.len() > 0,
        spine_within(sp@, 1, b),
    ensures
        tree_seq(Some(t)) == spine_seq(sp@),
        height(Some(t)) <= b,
        Some(t) == chain(sp@),
{
    let ghost whole = spine_seq(sp@);
    let mut spine = sp;
    let mut below: Option<Box<Node<V>>> = None;
    loop
        invariant
            spine_seq(spine@) + tree_seq(below) == whole,
            whole == spine_seq(sp@),
            spine@.len() > 0 || below is Some,
            spine@ == sp@.subrange(0, spine@.len() as int),
            spine@.len() <= sp@.len(),
            spine_within(sp@, 1, b),
            height(below) + spine@.len() <= b,
            below == chain(sp@.subrange(spine@.len() as int, sp@.len() as int)),
        decreases spine@.len(),
    {
        let ghost sp0 = spine@;
        match spine.pop_back() {
            None => {
                proof {
                    assert(spine_seq(spine@) =~= Seq::empty());
                    assert(tree_seq(below) =~= whole);
                    assert(sp@.subrange(0, sp@.len() as int) =~= sp@);
                }
                return below.unwrap();
            },
            Some(mut node) => {
                proof {
                    assert(spine@ =~= sp0.drop_last());
                    let j = spine@.len() as int;
                    assert(sp0 == sp@.subrange(0, sp0.len() as int));
                    assert(sp0[j] == sp@[j]);
                    assert(sp@[j] == node);
                    assert(left_height(sp@[j]) + 1 + (if j >= 1 { j } else { 0 }) <= b);
                }
                node.right = below;
                proof {
                    assert(tree_seq(Some(node)) =~= part(node) + tree_seq(node.right));
                    assert(spine_seq(spine@) + tree_seq(Some(node)) =~= whole);
                    assert(spine@ =~= sp@.subrange(0, spine@.len() as int));
                    let jj = spine@.len() as int;
                    let tail = sp@.subrange(jj, sp@.len() as int);
                    assert(tail.subrange(1, tail.len() as int) =~= sp@.subrange(jj + 1, sp@.len() as int));
                    assert(tail[0] == sp@[jj]);
                    assert(Some(node) == chain(tail));
                }
                below = Some(node);
            },
        }
    }
}

/// Rotation positions `k * n / uc` lie at least two apart when `n >= 2 uc`.
proof fn lemma_spacing(k: int, n: int, uc: int)
    requires
        uc >= 1,
        n >= 2 * uc,
        k >= 1,
    ensures
        k * n / uc >= (k - 1) * n / uc + 2,
{
    let a = (k - 1) * n;
    assert(k * n == a + n) by (nonlinear_arith)
        requires
            a == (k - 1) * n,
    ;
    assert(a >= 0) by (nonlinear_arith)
        requires
            a == (k - 1) * n,
            k >= 1,
            n >= 0,
    ;
    lemma_hoist_over_denominator(a, 2, uc as nat);
    lemma_div_is_ordered(a + 2 * uc, a + n, uc);
}

/// Before the last of the `uc` rotations, the rotation position leaves at
/// least four positions below it.
proof fn lemma_room_below(k: int, n: int, uc: int)
    requires
        1 <= k,
        k - 1 <= uc - 2,
        n >= 2 * uc,
    ensures
        (k - 1) * n / uc <= n - 4,
{
    assert((k - 1) * n <= uc * (n - 4)) by (nonlinear_arith)
        requires
            0 <= k - 1 <= uc - 2,
            n >= 2 * uc,
    ;
    lemma_div_is_ordered((k - 1) * n, uc * (n - 4), uc);
    lemma_div_multiples_vanish(n - 4, uc);
}

/// The first folding pass. The top node stays; further down, pairs are
/// rotated at the positions `k * n / uc` for `k = 0, 1, ...`, which spreads
/// the surplus `uc` nodes over the spine, so that what is left has the size
/// `n - uc` of a complete tree. Since the positions lie at least two apart,
/// all rotations but perhaps the last happen, and when the last does not,
/// the bottom node is a single one.
fn spread_pass<V>(sp: VecDeque<Box<Node<V>>>, n: usize, uc: usize) -> (out: VecDeque<Box<Node<V>>>)
    requires
        sp@.len() == n,
        1 <= uc,
        2 * uc <= n,
        forall|j: int| 0 <= j < sp@.len() ==> left_height(#[trigger] sp@[j]) == 0,
    ensures
        spine_seq(out@) == spine_seq(sp@),
        forall|j: int| 0 <= j < out@.len() ==> left_height(#[trigger] out@[j]) <= 1,
        out@.len() == n - uc || (out@.len() == n - uc + 1 && left_height(out@.last()) == 0),
        out@ == spread(sp@, n as int, uc as int),
{
    let ghost whole = spine_seq(sp@);
    let ghost target = spread(sp@, n as int, uc as int);
    let mut spine = sp;
    let mut out: VecDeque<Box<Node<V>>> = VecDeque::new();
    let head = pop_top(&mut spine);
    push_bottom(&mut out, head);
    proof {
        assert(spine_seq(out@) =~= Seq::empty() + part(head)) by {
            assert(out@.drop_last() =~= Seq::<Box<Node<V>>>::empty());
        }
        assert(head == sp@[0]);
        assert(out@ =~= seq![sp@[0]]);
        assert(spine@ =~= sp@.subrange(1, sp@.len() as int));
    }
    let mut i: usize = 0;
    let mut k: u128 = 1;
    let mut m: u128 = 0;
    let ghost mut last_rotated = false;
    loop
        invariant_except_break
            i <= m,
        invariant
            spine_seq(out@) + spine_seq(spine@) == whole,
            whole == spine_seq(sp@),
            sp@.len() == n,
            1 <= uc,
            2 * uc <= n,
            i + 1 + spine@.len() == n,
            out@.len() + k == 2 + i,
            1 <= k <= uc + 1,
            m == (k - 1) * n / (uc as int),
            out@.len() > 0,
            forall|j: int| 0 <= j < spine@.len() ==> left_height(#[trigger] spine@[j]) == 0,
            forall|j: int| 0 <= j < out@.len() ==> left_height(#[trigger] out@[j]) <= 1,
            !last_rotated ==> left_height(out@.last()) == 0,
            last_rotated && k - 1 < uc ==> spine@.len() > 0,
            spread_from(out@, spine@, i as int, k as int, m as int, n as int, uc as int) == target,
            target == spread(sp@, n as int, uc as int),
        ensures
            out@ == target,
            spine_seq(out@) == whole,
            forall|j: int| 0 <= j < out@.len() ==> left_height(#[trigger] out@[j]) <= 1,
            out@.len() == n - uc || (out@.len() == n - uc + 1 && left_height(out@.last()) == 0),
        decreases spine@.len(),
    {
        if spine.len() == 0 {
            proof {
                assert(spine@ =~= Seq::<Box<Node<V>>>::empty());
                assert(spine_seq(out@) =~= whole);
                if k - 1 < uc - 1 {
                    lemma_room_below(k as int, n as int, uc as int);
                }
            }
            break;
        }
        let ghost rest = spine@;
        let cur = pop_top(&mut spine);
        proof {
            assert(cur == rest[0]);
            assert(spine_seq(out@) + part(cur) + spine_seq(spine@) =~= whole);
            assert forall|j: int| 0 <= j < spine@.len() implies left_height(#[trigger] spine@[j])
                == 0 by {
                assert(spine@[j] == rest[j + 1]);
            }
        }
        let ghost before = out@;
        let ghost i0 = i as int;
        let ghost k0 = k as int;
        let ghost m0 = m as int;
        if spine.len() == 0 {
            push_bottom(&mut out, cur);
            proof {
                assert(rest.len() == 1);
                assert(spread_from(before, rest, i0, k0, m0, n as int, uc as int) == before.push(
                    rest[0],
                ));
                if k - 1 < uc - 1 {
                    lemma_room_below(k as int, n as int, uc as int);
                }
                assert(spine@ =~= Seq::<Box<Node<V>>>::empty());
                assert(spine_seq(out@) =~= whole);
                assert forall|j: int| 0 <= j < out@.len() implies left_height(#[trigger] out@[j])
                    <= 1 by {
                    if j < before.len() {
                        assert(out@[j] == before[j]);
                    }
                }
            }
            i = i + 1;
            proof {
                last_rotated = false;
            }
            break;
        }
        if i as u128 == m {
            proof {
                let kk = (k - 1) as int;
                let nn = n as int;
                let u = uc as int;
                if kk >= u {
                    assert(kk * nn / u >= nn) by (nonlinear_arith)
                        requires
                            kk >= u,
                            u >= 1,
                            nn >= 0,
                    ;
                }
                assert(k * n <= (uc + 1) * n) by (nonlinear_arith)
                    requires
                        k <= uc + 1,
                        n >= 0,
                ;
                assert((uc + 1) * n <= 0x1_0000_0000_0000_0000 * 0xffff_ffff_ffff_ffff) by (
                nonlinear_arith)
                    requires
                        uc + 1 <= 0x1_0000_0000_0000_0000,
                        n <= 0xffff_ffff_ffff_ffff,
                ;
                lemma_spacing(k as int, n as int, uc as int);
                if k < uc {
                    lemma_room_below(k as int, n as int, uc as int);
                }
            }
            m = k * (n as u128) / (uc as u128);
            k = k + 1;
            let ghost rest2 = spine@;
            let lower = pop_top(&mut spine);
            proof {
                assert(lower == rest2[0]);
                assert forall|j: int| 0 <= j < spine@.len() implies left_height(
                    #[trigger] spine@[j],
                ) == 0 by {
                    assert(spine@[j] == rest2[j + 1]);
                }
            }
            let joined = rotate_pair(cur, lower);
            push_bottom(&mut out, joined);
            i = i + 2;
            proof {
                assert(lower == rest[1]);
                assert(spine@ =~= rest.subrange(2, rest.len() as int));
                assert(spread_from(before, rest, i0, k0, m0, n as int, uc as int) == spread_from(
                    before.push(rotated(rest[0], rest[1])),
                    rest.subrange(2, rest.len() as int),
                    i0 + 2,
                    k0 + 1,
                    k0 * n / uc as int,
                    n as int,
                    uc as int,
                ));
                last_rotated = true;
                assert(spine_seq(out@) + spine_seq(spine@) =~= whole);
                assert forall|j: int| 0 <= j < out@.len() implies left_height(#[trigger] out@[j])
                    <= 1 by {
                    if j < before.len() {
                        assert(out@[j] == before[j]);
                    }
                }
            }
        } else {
            push_bottom(&mut out, cur);
            i = i + 1;
            proof {
                assert(spine@ =~= rest.subrange(1, rest.len() as int));
                assert(spread_from(before, rest, i0, k0, m0, n as int, uc as int) == spread_from(
                    before.push(rest[0]),
                    rest.subrange(1, rest.len() as int),
                    i0 + 1,
                    k0,
                    m0,
                    n as int,
                    uc as int,
                ));
                last_rotated = false;
                assert(spine_seq(out@) + spine_seq(spine@) =~= whole);
                assert forall|j: int| 0 <= j < out@.len() implies left_height(#[trigger] out@[j])
                    <= 1 by {
                    if j < before.len() {
                        assert(out@[j] == before[j]);
                    }
                }
            }
        }
    }
    out
}

/// One folding pass: the top `m` pairs of the spine are each rotated into
/// one node, which halves the top `n = 2m + 1` positions of the spine.
fn compress_pass<V>(sp: VecDeque<Box<Node<V>>>, m: usize, Ghost(b): Ghost<int>) -> (out: VecDeque<
    Box<Node<V>>,
>)
    requires
        sp@.len() >= 2 * m + 1,
        spine_within(sp@, 2 * m + 1, b),
    ensures
        spine_seq(out@) == spine_seq(sp@),
        out@.len() == sp@.len() - m,
        spine_within(out@, m as int, b + 1),
        out@ == compressed(sp@, m as nat),
{
    let ghost whole = spine_seq(sp@);
    let ghost len = sp@.len() as int;
    let ghost target = compressed(sp@, m as nat);
    let mut spine = sp;
    let mut out: VecDeque<Box<Node<V>>> = VecDeque::new();
    let mut j: usize = 0;
    proof {
        assert(spine_seq(out@) + spine_seq(spine@) =~= whole);
        assert(spine@ =~= sp@.subrange(0, len));
    }
    while j < m
        invariant
            spine_seq(out@) + spine_seq(spine@) == whole,
            whole == spine_seq(sp@),
            len == sp@.len(),
            j <= m,
            spine@.len() == len - 2 * j,
            spine@ == sp@.subrange(2 * j, len),
            out@.len() == j,
            sp@.len() >= 2 * m + 1,
            spine_within(sp@, 2 * m + 1, b),
            spine_within(out@, m as int, b + 1),
            forall|q: int| 0 <= q < out@.len() ==> left_height(#[trigger] out@[q]) <= b,
            out@ + compressed(spine@, (m - j) as nat) == target,
            target == compressed(sp@, m as nat),
        decreases m - j,
    {
        let ghost rest = spine@;
        let ghost out0 = out@;
        let ghost left = (m - j) as nat;
        let upper = pop_top(&mut spine);
        let lower = pop_top(&mut spine);
        proof {
            assert(upper == sp@[2 * j as int]);
            assert(lower == sp@[2 * j + 1]);
            assert(left_height(sp@[2 * j as int]) + 1 <= b);
            assert(left_height(sp@[2 * j + 1]) + 1 <= b);
        }
        let joined = rotate_pair(upper, lower);
        let ghost before = out@;
        push_bottom(&mut out, joined);
        j = j + 1;
        proof {
            assert(spine_seq(out@) + spine_seq(spine@) =~= whole);
            assert(spine@ =~= sp@.subrange(2 * j, len));
            assert(spine@ =~= rest.subrange(2, rest.len() as int));
            assert(upper == rest[0] && lower == rest[1]);
            assert(compressed(rest, left) == seq![rotated(rest[0], rest[1])] + compressed(
                rest.subrange(2, rest.len() as int),
                (left - 1) as nat,
            ));
            assert(out@ + compressed(spine@, (m - j) as nat) =~= out0 + compressed(rest, left));
            assert forall|q: int| 0 <= q < out@.len() implies left_height(#[trigger] out@[q])
                <= b by {
                if q < before.len() {
                    assert(out@[q] == before[q]);
                }
            }
            assert(spine_within(out@, m as int, b + 1));
        }
    }
    proof {
        assert(compressed(spine@, 0) == spine@);
    }
    while spine.len() > 0
        invariant
            spine_seq(out@) + spine_seq(spine@) == whole,
            whole == spine_seq(sp@),
            len == sp@.len(),
            out@.len() + m + spine@.len() == len,
            out@.len() >= m,
            out@ + spine@ == target,
            target == compressed(sp@, m as nat),
            spine@ == sp@.subrange(len - spine@.len(), len),
            spine_within(sp@, 2 * m + 1, b),
            spine_within(out@, m as int, b + 1),
        decreases spine@.len(),
    {
        let ghost q = len - spine@.len();
        let ghost rest2 = spine@;
        let x = pop_top(&mut spine);
        proof {
            assert(x == sp@[q]);
            assert(left_height(sp@[q]) + 1 + (if q >= 2 * m + 1 {
                q - (2 * m + 1) + 1
            } else {
                0
            }) <= b);
        }
        let ghost before = out@;
        push_bottom(&mut out, x);
        proof {
            assert(spine_seq(out@) + spine_seq(spine@) =~= whole);
            assert(spine@ =~= sp@.subrange(len - spine@.len(), len));
            assert(out@ + spine@ =~= before + rest2);
            assert forall|p: int| 0 <= p < out@.len() implies left_height(#[trigger] out@[p]) + 1 + (
            if p >= m {
                p - m + 1
            } else {
                0
            }) <= b + 1 by {
                if p < before.len() {
                    assert(out@[p] == before[p]);
                }
            }
        }
    }
    proof {
        assert(spine@ =~= Seq::<Box<Node<V>>>::empty());
        assert(spine_seq(spine@) =~= Seq::empty());
        assert(spine_seq(out@) =~= whole);
        assert(out@ + spine@ =~= out@);
    }
    out
}

/// The largest power of two not above `n`, with its exponent.
fn highest_power_of_two(n: usize) -> (r: (usize, Ghost<nat>))
    requires
        n >= 1,
    ensures
        r.0 == pow(2, r.1@),
        1 <= r.0 <= n,
        n < 2 * r.0,
{
    let mut t: usize = 1;
    let ghost mut e: nat = 0;
    proof {
        reveal(pow);
    }
    while t <= n / 2
        invariant
            1 <= t <= n,
            t == pow(2, e),
        decreases n - t,
    {
        proof {
            lemma_pow_unfold(2, e);
        }
        t = t * 2;
        proof {
            e = e + 1;
        }
    }
    (t, Ghost(e))
}

/// Only one power of two `t` has `t <= n < 2 t`.
proof fn lemma_top_power_of_two(n: nat, e: nat)
    requires
        pow(2, e) <= n < 2 * pow(2, e),
    ensures
        top_power_of_two(n) == pow(2, e),
{
    let e2 = choose|e2: nat| #[trigger] pow(2, e2) <= n < 2 * pow(2, e2);
    assert(pow(2, e2) <= n < 2 * pow(2, e2));
    if e2 < e {
        lemma_pow2_monotone(e2 + 1, e);
        lemma_pow_unfold(2, e2);
    } else if e < e2 {
        lemma_pow2_monotone(e + 1, e2);
        lemma_pow_unfold(2, e);
    }
}

impl<V> Vine<V> {
    /// Folds a vine into a tree of least height by rotations: a first pass
    /// leaves a complete number of nodes on the spine, then each pass
    /// rotates the top half of the spine.
    pub fn into_tree(self) -> (t: Box<Node<V>>)
        requires
            self.seq().len() > 0,
        ensures
            tree_seq(Some(t)) == self.seq(),
            pow(2, (height(Some(t)) - 1) as nat) <= self.seq().len(),
            Some(t) == folded(self.seq()),
    {
        let ghost vs = self.seq();
        let size = self.items.len();
        let mut spine = vine_to_spine(self);
        let mut n = size;
        let (trimmed, Ghost(e)) = highest_power_of_two(n);
        proof {
            lemma_top_power_of_two(size as nat, e);
        }
        let uc = n - trimmed + 1;
        let ghost mut b: int;
        let ghost mut p: nat;
        let ghost target: Seq<Box<Node<V>>>;
        if uc != trimmed {
            spine = spread_pass(spine, n, uc);
            n = n - uc;
            proof {
                target = compressed_all(spine@, n as nat);
                b = 2;
                p = e;
                assert(spine_within(spine@, n as int, 2)) by {
                    assert forall|j: int| 0 <= j < spine@.len() implies left_height(
                        #[trigger] spine@[j],
                    ) + 1 + (if j >= n {
                        j - n + 1
                    } else {
                        0
                    }) <= 2 by {
                        if j >= n {
                            assert(spine@[j] == spine@.last());
                        }
                    }
                }
            }
        } else {
            proof {
                b = 1;
                p = e + 1;
                lemma_pow_unfold(2, e);
                target = compressed_all(spine@, n as nat);
            }
        }
        proof {
            assert(chain(target) == folded(vs));
        }
        while n > 1
            invariant
                compressed_all(spine@, n as nat) == target,
                chain(target) == folded(vs),
                spine_seq(spine@) == vs,
                spine@.len() >= n,
                n >= 1,
                n + 1 == pow(2, p),
                spine_within(spine@, n as int, b),
                b + p == e + 2,
            decreases n,
        {
            let m = n / 2;
            proof {
                if p < 2 {
                    reveal_with_fuel(pow, 2);
                }
                lemma_pow_unfold(2, (p - 1) as nat);
            }
            spine = compress_pass(spine, m, Ghost(b));
            n = m;
            proof {
                b = b + 1;
                p = (p - 1) as nat;
            }
        }
        proof {
            if p != 1 {
                if p == 0 {
                    reveal(pow);
                } else {
                    lemma_pow2_monotone(2, p);
                    reveal_with_fuel(pow, 3);
                }
            }
        }
        let t = spine_to_tree(spine, Ghost(b));
        proof {
            lemma_pow2_monotone((height(Some(t)) - 1) as nat, e);
        }
        t
    }
}

} // verus!
