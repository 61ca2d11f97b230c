//! The shape of the tree as plain values, for printing it: the nested form
//! `(left ← key:value → right)` as a stream of tokens, and the sideways
//! drawing as one line per node.
use vstd::prelude::*;
use crate::node::{Node, tree_seq, height, replaced};
use crate::entries::has_key;

verus! {

/// A piece of the nested form of a tree.
#[derive(Clone, Copy, PartialEq, Eq, Debug, Structural)]
pub enum Token {
    /// `(`: a subtree begins.
    Open,
    /// `)`: a subtree ends.
    Close,
    /// ` ← `: the left subtree before it is done.
    LeftArrow,
    /// ` → `: the right subtree after it follows.
    RightArrow,
    /// `key:value` of a node.
    Entry(u64),
}

/// The nested form of a tree: each node is `(`, its left subtree and ` ← `
/// if it has one, its entry, ` → ` and its right subtree if it has one, `)`.
pub open spec fn nested_tokens<V>(t: Option<Box<Node<V>>>) -> Seq<Token>
    decreases t,
{
    match t {
        None => Seq::empty(),
        Some(n) => seq![Token::Open] + (if n.left is Some {
            nested_tokens(n.left) + seq![Token::LeftArrow]
        } else {
            Seq::empty()
        }) + seq![Token::Entry(n.key)] + (if n.right is Some {
            seq![Token::RightArrow] + nested_tokens(n.right)
        } else {
            Seq::empty()
        }) + seq![Token::Close],
    }
}

/// Appends the nested form of `t` to `out`.
pub fn push_nested<V>(t: &Option<Box<Node<V>>>, out: &mut Vec<Token>)
    ensures
        final(out)@ == old(out)@ + nested_tokens(*t),
    decreases *t,
{
    match t {
        None => {
            proof {
                assert(old(out)@ + nested_tokens(*t) =~= old(out)@);
            }
        },
        Some(n) => {
            let ghost start = out@;
            out.push(Token::Open);
            if n.left.is_some() {
                push_nested(&n.left, out);
                out.push(Token::LeftArrow);
            }
            out.push(Token::Entry(n.key));
            if n.right.is_some() {
                out.push(Token::RightArrow);
                push_nested(&n.right, out);
            }
            out.push(Token::Close);
            proof {
                assert(out@ =~= start + nested_tokens(*t));
            }
        },
    }
}

/// Where a line of the sideways drawing hangs.
#[derive(Clone, Copy, PartialEq, Eq, Debug, Structural)]
pub enum Side {
    /// The root: `key:value` alone.
    Root,
    /// A right child: drawn ` ˏ——— key:value` after its indent.
    Right,
    /// A left child: drawn `` `——— key:value`` after its indent.
    Left,
}

/// One line of the sideways drawing: below the root, the indent is three
/// spaces and then, per level, `⎹   ` where `bars` holds `true` and four
/// spaces where it holds `false`.
pub struct Line {
    pub bars: Vec<bool>,
    pub side: Side,
    pub key: u64,
}

/// A line as plain values.
pub open spec fn line_view(l: Line) -> (Seq<bool>, Side, u64) {
    (l.bars@, l.side, l.key)
}

/// The lines as plain values.
pub open spec fn lines_view(ls: Seq<Line>) -> Seq<(Seq<bool>, Side, u64)> {
    ls.map_values(|l: Line| line_view(l))
}

/// The sideways drawing of a subtree hanging at `side` below the indent
/// `bars`: the right subtree first, then the node, then the left subtree.
/// Below a right child, the right side goes on with spaces and the left
/// side with a bar; below a left child, the other way round.
pub open spec fn drawing<V>(t: Option<Box<Node<V>>>, bars: Seq<bool>, side: Side) -> Seq<
    (Seq<bool>, Side, u64),
>
    decreases t,
{
    match t {
        None => Seq::empty(),
        Some(n) => {
            let (right_bars, left_bars) = match side {
                Side::Root => (bars, bars),
                Side::Right => (bars.push(false), bars.push(true)),
                Side::Left => (bars.push(true), bars.push(false)),
            };
            drawing(n.right, right_bars, Side::Right) + seq![(bars, side, n.key)] + drawing(
                n.left,
                left_bars,
                Side::Left,
            )
        },
    }
}

proof fn lemma_lines_push(ls: Seq<Line>, l: Line)
    ensures
        lines_view(ls.push(l)) == lines_view(ls).push(line_view(l)),
{
    assert(lines_view(ls.push(l)) =~= lines_view(ls).push(line_view(l)));
}

/// A copy of `bars`, with `bar` added when there is one.
fn bars_with(bars: &Vec<bool>, bar: Option<bool>) -> (r: Vec<bool>)
    ensures
        r@ == match bar {
            Some(b) => bars@.push(b),
            None => bars@,
        },
{
    let mut r: Vec<bool> = Vec::new();
    let mut i: usize = 0;
    while i < bars.len()
        invariant
            i <= bars@.len(),
            r@ == bars@.subrange(0, i as int),
        decreases bars@.len() - i,
    {
        r.push(bars[i]);
        i = i + 1;
        proof {
            assert(r@ =~= bars@.subrange(0, i as int));
        }
    }
    proof {
        assert(r@ =~= bars@);
    }
    match bar {
        Some(b) => {
            r.push(b);
        },
        None => {},
    }
    r
}

/// Appends the sideways drawing of `t` to `out`.
pub fn push_drawing<V>(t: &Option<Box<Node<V>>>, bars: &Vec<bool>, side: Side, out: &mut Vec<Line>)
    ensures
        lines_view(final(out)@) == lines_view(old(out)@) + drawing(*t, bars@, side),
    decreases *t,
{
    match t {
        None => {
            proof {
                assert(lines_view(old(out)@) + drawing(*t, bars@, side) =~= lines_view(old(out)@));
            }
        },
        Some(n) => {
            let ghost start = lines_view(out@);
            let (right_bar, left_bar) = match side {
                Side::Root => (None, None),
                Side::Right => (Some(false), Some(true)),
                Side::Left => (Some(true), Some(false)),
            };
            let right_bars = bars_with(bars, right_bar);
            push_drawing(&n.right, &right_bars, Side::Right, out);
            let own = bars_with(bars, None);
            let line = Line { bars: own, side, key: n.key };
            proof {
                lemma_lines_push(out@, line);
            }
            out.push(line);
            let left_bars = bars_with(bars, left_bar);
            push_drawing(&n.left, &left_bars, Side::Left, out);
            proof {
                assert(lines_view(out@) =~= start + drawing(*t, bars@, side));
            }
        },
    }
}

/// Every entry token of the nested form names a key of the tree.
pub proof fn lemma_nested_keys<V>(t: Option<Box<Node<V>>>)
    ensures
        forall|i: int|
            0 <= i < nested_tokens(t).len() && (#[trigger] nested_tokens(t)[i] is Entry) ==> has_key(
                tree_seq(t),
                nested_tokens(t)[i]->Entry_0,
            ),
    decreases t,
{
    match t {
        None => {},
        Some(n) => {
            lemma_nested_keys(n.left);
            lemma_nested_keys(n.right);
            let ls = tree_seq(n.left);
            let rs = tree_seq(n.right);
            let whole = tree_seq(t);
            assert(whole == ls + seq![(n.key, n.value)] + rs);
            let lt = if n.left is Some {
                nested_tokens(n.left) + seq![Token::LeftArrow]
            } else {
                Seq::empty()
            };
            let rt = if n.right is Some {
                seq![Token::RightArrow] + nested_tokens(n.right)
            } else {
                Seq::empty()
            };
            let tok = nested_tokens(t);
            assert(tok == seq![Token::Open] + lt + seq![Token::Entry(n.key)] + rt + seq![Token::Close]);
            assert forall|i: int| 0 <= i < tok.len() && (#[trigger] tok[i] is Entry) implies has_key(
                whole,
                tok[i]->Entry_0,
            ) by {
                let a = 1 + lt.len();
                if i == 0 {
                    assert(tok[0] == Token::Open);
                    assert(false);
                } else if i == tok.len() - 1 {
                    assert(tok[i] == Token::Close);
                    assert(false);
                } else if i == a {
                    assert(tok[i] == Token::Entry(n.key));
                    assert(whole[ls.len() as int] == (n.key, n.value));
                    assert(whole[ls.len() as int].0 == tok[i]->Entry_0);
                } else if 1 <= i < a {
                    let q = i - 1;
                    assert(tok[i] == lt[q]);
                    assert(n.left is Some);
                    let nl = nested_tokens(n.left);
                    assert(lt == nl + seq![Token::LeftArrow]);
                    if q == nl.len() {
                        assert(lt[q] == Token::LeftArrow);
                        assert(false);
                    }
                    assert(q < nl.len());
                    assert(lt[q] == nl[q]);
                    assert(nl[q] is Entry);
                    assert(has_key(ls, nl[q]->Entry_0));
                    let w = choose|w: int| 0 <= w < ls.len() && #[trigger] ls[w].0 == nl[q]->Entry_0;
                    assert(whole[w] == ls[w]);
                    assert(whole[w].0 == tok[i]->Entry_0);
                    assert(has_key(whole, tok[i]->Entry_0));
                } else {
                    assert(a < i < a + 1 + rt.len());
                    let q = i - a - 1;
                    assert(tok[i] == rt[q]);
                    assert(n.right is Some);
                    let nr = nested_tokens(n.right);
                    assert(rt == seq![Token::RightArrow] + nr);
                    if q == 0 {
                        assert(rt[q] == Token::RightArrow);
                        assert(false);
                    }
                    assert(rt[q] == nr[q - 1]);
                    assert(nr[q - 1] is Entry);
                    assert(has_key(rs, nr[q - 1]->Entry_0));
                    let w = choose|w: int| 0 <= w < rs.len() && #[trigger] rs[w].0 == nr[q - 1]->Entry_0;
                    assert(whole[ls.len() + 1 + w] == rs[w]);
                    assert(whole[ls.len() + 1 + w].0 == tok[i]->Entry_0);
                    assert(has_key(whole, tok[i]->Entry_0));
                }
            }
        },
    }
}

/// Every line of the sideways drawing names a key of the tree.
pub proof fn lemma_drawing_keys<V>(t: Option<Box<Node<V>>>, bars: Seq<bool>, side: Side)
    ensures
        forall|i: int|
            0 <= i < drawing(t, bars, side).len() ==> has_key(
                tree_seq(t),
                (#[trigger] drawing(t, bars, side)[i]).2,
            ),
    decreases t,
{
    match t {
        None => {},
        Some(n) => {
            let (right_bars, left_bars) = match side {
                Side::Root => (bars, bars),
                Side::Right => (bars.push(false), bars.push(true)),
                Side::Left => (bars.push(true), bars.push(false)),
            };
            lemma_drawing_keys(n.right, right_bars, Side::Right);
            lemma_drawing_keys(n.left, left_bars, Side::Left);
            let ls = tree_seq(n.left);
            let rs = tree_seq(n.right);
            let whole = tree_seq(t);
            assert(whole == ls + seq![(n.key, n.value)] + rs);
            let dr = drawing(n.right, right_bars, Side::Right);
            let dl = drawing(n.left, left_bars, Side::Left);
            let d = drawing(t, bars, side);
            assert(d == dr + seq![(bars, side, n.key)] + dl);
            assert forall|i: int| 0 <= i < d.len() implies has_key(whole, (#[trigger] d[i]).2) by {
                if i < dr.len() {
                    assert(d[i] == dr[i]);
                    assert(has_key(rs, dr[i].2));
                    let w = choose|w: int| 0 <= w < rs.len() && #[trigger] rs[w].0 == d[i].2;
                    assert(whole[ls.len() + 1 + w] == rs[w]);
                    assert(whole[ls.len() + 1 + w].0 == d[i].2);
                } else if i == dr.len() {
                    assert(d[i] == (bars, side, n.key));
                    assert(whole[ls.len() as int] == (n.key, n.value));
                    assert(whole[ls.len() as int].0 == d[i].2);
                } else {
                    assert(d[i] == dl[i - dr.len() - 1]);
                    assert(has_key(ls, dl[i - dr.len() - 1].2));
                    let w = choose|w: int| 0 <= w < ls.len() && #[trigger] ls[w].0 == d[i].2;
                    assert(whole[w] == ls[w]);
                    assert(whole[w].0 == d[i].2);
                }
            }
        },
    }
}

/// Replacing the value under a key changes neither shape nor printed keys:
/// the nested form, the sideways drawing and the height stay as they were.
pub proof fn lemma_replaced_shape<V>(t: Option<Box<Node<V>>>, key: u64, value: V, bars: Seq<bool>, side: Side)
    ensures
        nested_tokens(replaced(t, key, value)) == nested_tokens(t),
        drawing(replaced(t, key, value), bars, side) == drawing(t, bars, side),
        height(replaced(t, key, value)) == height(t),
    decreases t,
{
    match t {
        None => {},
        Some(n) => {
            let (right_bars, left_bars) = match side {
                Side::Root => (bars, bars),
                Side::Right => (bars.push(false), bars.push(true)),
                Side::Left => (bars.push(true), bars.push(false)),
            };
            lemma_replaced_shape(n.left, key, value, left_bars, Side::Left);
            lemma_replaced_shape(n.right, key, value, right_bars, Side::Right);
            let r = replaced(t, key, value).unwrap();
            assert(r.left is Some == n.left is Some) by {
                if key < n.key {
                    assert(replaced(n.left, key, value) is Some == n.left is Some);
                }
            }
            assert(r.right is Some == n.right is Some) by {
                if key > n.key {
                    assert(replaced(n.right, key, value) is Some == n.right is Some);
                }
            }
        },
    }
}

} // verus!
