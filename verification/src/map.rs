//! The scapegoat tree map.
use vstd::prelude::*;
use vstd::arithmetic::power::pow;
use crate::bound::{
    lemma_pow_unfold, lemma_pow_positive, depth_within_bound, within_log_bound,
    lemma_within_monotone, lemma_binary_depth_within,
};
use crate::entries::{
    entries_map, keys_sorted, key_index, lemma_entry_at, lemma_update_value, lemma_len, lemma_node,
    lemma_empty, lemma_least_entry, lemma_greatest_entry,
};
use crate::node::{
    Node, tree_seq, height, lemma_size_below_pow, tree_map, search_tree, get_in, replace_in,
    remove_in, take_min, take_max, first_in, last_in, get_mut_in, replaced, removed, without_min,
    without_max,
};
use crate::path::{
    reverse_path, find_scapegoat, restore_path, fill, lemma_fill_new_entry, reassemble, inserted,
    search_path,
    lemma_reassemble_height, lemma_rebuild_no_higher, lemma_reassemble_deep,
};
use crate::vine::{Vine, folded, single};
use crate::display::{
    Token, Side, Line, nested_tokens, push_nested, drawing, push_drawing, lines_view,
    lemma_nested_keys, lemma_drawing_keys, lemma_replaced_shape,
};

verus! {

/// The allocator handle of a map made by [`ScapeGoatTreeMap::new`]. Nodes
/// of every map live in boxes from the global allocator.
#[derive(Debug)]
pub struct Global;

/// The tree of a map with its two counts: `len` counts the entries and
/// `max` the most entries the tree has held since it was last rebuilt whole.
#[derive(Debug)]
struct Core<V> {
    tree: Option<Box<Node<V>>>,
    len: usize,
    max: usize,
}

/// An ordered map kept as a scapegoat tree, with the allocator handle it
/// was made with. The handle is only kept, never allocated from: every node
/// is a box from the global allocator.
#[derive(Debug)]
pub struct ScapeGoatTreeMap<V, A = Global> {
    core: Core<V>,
    alloc: A,
}

/// Removing one entry of `len` from a map whose peak count is `peak`
/// rebuilds the whole tree: the new count is below two thirds of the peak
/// and not zero.
pub open spec fn rebuilds_after_removal(len: nat, peak: nat) -> bool {
    3 * (len - 1) < 2 * peak && len - 1 > 0
}

/// The peak count after one entry of `len` has been removed from a map whose
/// peak count was `peak`: it falls to the new count when that is below two
/// thirds of the peak and the map is not left empty.
pub open spec fn peak_after_removal(len: nat, peak: nat) -> nat {
    if rebuilds_after_removal(len, peak) {
        (len - 1) as nat
    } else {
        peak
    }
}

/// The tree after one entry was taken out, leaving `t`, from a map of
/// `len` entries and peak count `peak`: rebuilt whole by folding its
/// entries when the count falls below two thirds of the peak, else `t`.
pub open spec fn after_removal<V>(t: Option<Box<Node<V>>>, len: nat, peak: nat) -> Option<
    Box<Node<V>>,
> {
    if rebuilds_after_removal(len, peak) {
        folded(tree_seq(t))
    } else {
        t
    }
}

/// A tree of height `h` is balanced for the peak count `peak`: its deepest
/// node sits at most `log_{3/2}(peak)` levels below the root.
pub open spec fn height_within_peak(h: nat, peak: nat) -> bool {
    h == 0 || within_log_bound((h - 1) as nat, peak)
}

/// The peak count is at most three halves of the count, or at most one when
/// the map is empty.
pub open spec fn peak_within_three_halves(len: nat, peak: nat) -> bool {
    if len == 0 {
        peak <= 1
    } else {
        2 * peak <= 3 * len
    }
}

/// A lower tree stays balanced for the same peak count.
proof fn lemma_lower_within(h: nat, h_old: nat, peak: nat)
    requires
        height_within_peak(h_old, peak),
        h <= h_old,
    ensures
        height_within_peak(h, peak),
{
    if h > 0 {
        lemma_within_monotone((h_old - 1) as nat, peak, (h - 1) as nat, peak);
    }
}

/// `k` is the least key of `m`.
pub open spec fn is_least_key<V>(m: Map<u64, V>, k: u64) -> bool {
    m.contains_key(k) && forall|j: u64| m.contains_key(j) ==> k <= j
}

/// `k` is the greatest key of `m`.
pub open spec fn is_greatest_key<V>(m: Map<u64, V>, k: u64) -> bool {
    m.contains_key(k) && forall|j: u64| m.contains_key(j) ==> j <= k
}

impl<V> View for Core<V> {
    type V = Map<u64, V>;

    closed spec fn view(&self) -> Map<u64, V> {
        tree_map(self.tree)
    }
}

impl<V> Core<V> {
    /// The core with no entries.
    closed spec fn empty_value() -> Self {
        Core { tree: None, len: 0, max: 0 }
    }

    /// No entries.
    fn empty() -> (c: Self)
        ensures
            c == Self::empty_value(),
            c.wf(),
            c@ == Map::<u64, V>::empty(),
            c.peak() == 0,
            c.tree() == None::<Box<Node<V>>>,
    {
        proof {
            lemma_empty::<V>();
        }
        Core { tree: None, len: 0, max: 0 }
    }
}

impl<V> Core<V> {
    /// The tree is a search tree, `len` counts its entries, `max` is at least
    /// `len` and at most three halves of it, and the tree is balanced for
    /// `max`: no node lies deeper than `log_{3/2}(max)`.
    closed spec fn wf(&self) -> bool {
        &&& search_tree(self.tree)
        &&& self.len == tree_seq(self.tree).len()
        &&& self.len <= self.max
        &&& height_within_peak(height(self.tree), self.max as nat)
        &&& peak_within_three_halves(self.len as nat, self.max as nat)
    }

    /// The most entries the tree has held since it was last rebuilt whole.
    closed spec fn peak(&self) -> nat {
        self.max as nat
    }

    /// The tree itself: its shape, with the entries at its nodes.
    closed spec fn tree(&self) -> Option<Box<Node<V>>> {
        self.tree
    }

    /// The height of the tree: the number of nodes on its longest path down.
    closed spec fn height(&self) -> nat {
        height(self.tree)
    }

    /// The entries in key order.
    closed spec fn entries(&self) -> Seq<(u64, V)> {
        tree_seq(self.tree)
    }

    /// The nested form of the tree.
    closed spec fn nested_form(&self) -> Seq<Token> {
        nested_tokens(self.tree)
    }

    /// The sideways drawing of the tree.
    closed spec fn sideways_form(&self) -> Seq<(Seq<bool>, Side, u64)> {
        drawing(self.tree, Seq::empty(), Side::Root)
    }

    proof fn lemma_wf(&self)
        requires
            self.wf(),
        ensures
            self@.dom().finite(),
            self@.len() == self.len,
            keys_sorted(self.entries()),
            self@ == entries_map(self.entries()),
    {
        lemma_len(tree_seq(self.tree));
    }

}

impl<V> Core<V> {
    /// Puts `value` under `key` and hands back the value it replaced.
    ///
    /// A new key goes in as a leaf at the end of its search path. When that
    /// depth exceeds `log_{3/2}` of the new number of entries, the walk back
    /// up the path finds the scapegoat, the lowest node on it whose child on
    /// the path holds more than two thirds of its subtree, and rebuilds that
    /// subtree balanced.
    fn insert(&mut self, key: u64, value: V) -> (r: Option<V>)
        requires
            old(self).wf(),
            old(self)@.len() < usize::MAX,
        ensures
            final(self).wf(),
            final(self)@ == old(self)@.insert(key, value),
            r == if old(self)@.contains_key(key) {
                Some(old(self)@[key])
            } else {
                None::<V>
            },
            old(self)@.contains_key(key) ==> final(self).peak() == old(self).peak(),
            !old(self)@.contains_key(key) ==> final(self).peak() == if old(self).peak()
                < final(self)@.len() {
                final(self)@.len()
            } else {
                old(self).peak()
            },
            final(self).tree() == if old(self)@.contains_key(key) {
                replaced(old(self).tree(), key, value)
            } else {
                inserted(old(self).tree(), key, value)
            },
            final(self).height() <= old(self).height() || within_log_bound(
                (final(self).height() - 1) as nat,
                final(self)@.len(),
            ),
            old(self)@.contains_key(key) ==> {
                &&& final(self).nested_form() == old(self).nested_form()
                &&& final(self).sideways_form() == old(self).sideways_form()
                &&& final(self).height() == old(self).height()
            },
            !old(self)@.contains_key(key) && !within_log_bound(
                search_path(old(self).tree(), key).len(),
                final(self)@.len(),
            ) ==> final(self).height() <= old(self).height(),
    {
        proof {
            self.lemma_wf();
        }
        if get_in(&self.tree, key).is_some() {
            let (t, old_value) = replace_in(self.tree.take(), key, value);
            self.tree = t;
            proof {
                self.lemma_wf();
                lemma_replaced_shape(old(self).tree, key, value, Seq::empty(), Side::Root);
            }
            return Some(old_value);
        }
        self.len = self.len + 1;
        if self.max < self.len {
            self.max = self.len;
        }
        let ghost old_tree = self.tree;
        let ghost old_max = old(self).max as nat;
        let path = reverse_path(self.tree.take(), key);
        proof {
            lemma_fill_new_entry(path@, (key, value));
        }
        if depth_within_bound(path.len(), self.len) {
            let leaf = Box::new(Node { key, value, left: None, right: None });
            proof {
                assert(tree_seq(leaf.left) =~= Seq::empty());
                assert(tree_seq(leaf.right) =~= Seq::empty());
                assert(tree_seq(Some(leaf)) =~= seq![(key, value)]);
                lemma_reassemble_height(path@, key, Some(leaf));
                assert(height(leaf.left) == 0 && height(leaf.right) == 0);
                assert(height(Some(leaf)) == 1);
                let h = height(reassemble(path@, key, Some(leaf)));
                if h <= height(old_tree) {
                    if h > 0 {
                        lemma_within_monotone(
                            (height(old_tree) - 1) as nat,
                            old_max,
                            (h - 1) as nat,
                            self.max as nat,
                        );
                    }
                } else {
                    lemma_within_monotone(
                        path@.len(),
                        self.len as nat,
                        (h - 1) as nat,
                        self.max as nat,
                    );
                    lemma_within_monotone(
                        path@.len(),
                        self.len as nat,
                        (h - 1) as nat,
                        self.len as nat,
                    );
                }
                assert(leaf == single((key, value)));
            }
            self.tree = Some(restore_path(leaf, path, key));
        } else {
            proof {
                if path@.len() == 0 {
                    reveal(pow);
                }
            }
            let ghost full = path@;
            let (sub, rest) = find_scapegoat((key, value), path);
            proof {
                lemma_rebuild_no_higher(full, (key, value), rest@, sub);
                lemma_reassemble_deep(full, key, None);
                lemma_reassemble_deep(rest@, key, Some(sub));
                let h = height(reassemble(rest@, key, Some(sub)));
                assert(height(old_tree) >= 1);
                lemma_within_monotone(
                    (height(old_tree) - 1) as nat,
                    old_max,
                    (h - 1) as nat,
                    self.max as nat,
                );
            }
            self.tree = Some(restore_path(sub, rest, key));
        }
        proof {
            self.lemma_wf();
        }
        None
    }

    /// Counts one entry less, and rebuilds the whole tree balanced when the
    /// count has fallen below two thirds of `max`.
    fn remove_rebuild(&mut self)
        requires
            search_tree(old(self).tree),
            old(self).len == tree_seq(old(self).tree).len() + 1,
            old(self).len <= old(self).max,
            height_within_peak(height(old(self).tree), old(self).max as nat),
            peak_within_three_halves(old(self).len as nat, old(self).max as nat),
        ensures
            final(self).wf(),
            tree_seq(final(self).tree) == tree_seq(old(self).tree),
            final(self).peak() == if 3 * (old(self).len - 1) < 2 * old(self).max && tree_seq(
                old(self).tree,
            ).len() > 0 {
                (old(self).len - 1) as nat
            } else {
                old(self).max as nat
            },
            3 * (old(self).len - 1) < 2 * old(self).max && tree_seq(old(self).tree).len() > 0
                ==> pow(2, (final(self).height() - 1) as nat) <= tree_seq(old(self).tree).len(),
            final(self).tree == if 3 * (old(self).len - 1) < 2 * old(self).max && tree_seq(
                old(self).tree,
            ).len() > 0 {
                folded(tree_seq(old(self).tree))
            } else {
                old(self).tree
            },
    {
        self.len = self.len - 1;
        if 3 * (self.len as u128) < 2 * (self.max as u128) {
            match self.tree.take() {
                Some(root) => {
                    self.max = self.len;
                    let vine = Vine::from_tree(root);
                    let rebuilt = vine.into_tree();
                    proof {
                        lemma_binary_depth_within((height(Some(rebuilt)) - 1) as nat, self.len as nat);
                    }
                    self.tree = Some(rebuilt);
                },
                None => {},
            }
        }
    }

    /// Removes the entry of `key` and hands it back, if there is one.
    fn remove_entry(&mut self, key: &u64) -> (r: Option<(u64, V)>)
        requires
            old(self).wf(),
        ensures
            final(self).wf(),
            final(self)@ == old(self)@.remove(*key),
            r == if old(self)@.contains_key(*key) {
                Some((*key, old(self)@[*key]))
            } else {
                None::<(u64, V)>
            },
            final(self).peak() == if old(self)@.contains_key(*key) {
                peak_after_removal(old(self)@.len(), old(self).peak())
            } else {
                old(self).peak()
            },
            old(self)@.contains_key(*key) && rebuilds_after_removal(old(self)@.len(), old(self).peak())
                ==> pow(2, (final(self).height() - 1) as nat) <= final(self)@.len(),
            final(self).tree() == if old(self)@.contains_key(*key) {
                after_removal(removed(old(self).tree(), *key), old(self)@.len(), old(self).peak())
            } else {
                old(self).tree()
            },
    {
        proof {
            self.lemma_wf();
        }
        let ghost old_tree = self.tree;
        let (t, entry) = remove_in(self.tree.take(), *key);
        proof {
            lemma_lower_within(height(t), height(old_tree), self.max as nat);
        }
        self.tree = t;
        match entry {
            Some(e) => {
                self.remove_rebuild();
                Some(e)
            },
            None => {
                proof {
                    assert(old(self)@.remove(*key) =~= old(self)@);
                }
                None
            },
        }
    }

    /// Removes the entry with the least key and hands it back, if any.
    fn pop_first(&mut self) -> (r: Option<(u64, V)>)
        requires
            old(self).wf(),
        ensures
            final(self).wf(),
            match r {
                Some((k, v)) => {
                    &&& is_least_key(old(self)@, k)
                    &&& v == old(self)@[k]
                    &&& final(self)@ == old(self)@.remove(k)
                },
                None => old(self)@.len() == 0 && final(self)@ == old(self)@,
            },
            final(self).peak() == if old(self)@.len() > 0 {
                peak_after_removal(old(self)@.len(), old(self).peak())
            } else {
                old(self).peak()
            },
            old(self)@.len() > 0 && rebuilds_after_removal(old(self)@.len(), old(self).peak())
                ==> pow(2, (final(self).height() - 1) as nat) <= final(self)@.len(),
            final(self).tree() == match old(self).tree() {
                Some(n) => after_removal(without_min(n), old(self)@.len(), old(self).peak()),
                None => None,
            },
    {
        proof {
            self.lemma_wf();
        }
        match self.tree.take() {
            None => None,
            Some(root) => {
                let ghost s = tree_seq(Some(root));
                let (rest, first) = take_min(root);
                proof {
                    lemma_lower_within(height(rest), height(old(self).tree), self.max as nat);
                }
                proof {
                    lemma_least_entry(s);
                    lemma_node(Seq::empty(), first, tree_seq(rest));
                    assert(s =~= Seq::empty() + seq![first] + tree_seq(rest));
                    assert(tree_seq(rest) =~= Seq::empty() + tree_seq(rest));
                    lemma_empty::<V>();
                    assert(entries_map(tree_seq(rest)) =~= entries_map(s).remove(first.0));
                }
                self.tree = rest;
                self.remove_rebuild();
                Some(first)
            },
        }
    }

    /// Removes the entry with the greatest key and hands it back, if any.
    fn pop_last(&mut self) -> (r: Option<(u64, V)>)
        requires
            old(self).wf(),
        ensures
            final(self).wf(),
            match r {
                Some((k, v)) => {
                    &&& is_greatest_key(old(self)@, k)
                    &&& v == old(self)@[k]
                    &&& final(self)@ == old(self)@.remove(k)
                },
                None => old(self)@.len() == 0 && final(self)@ == old(self)@,
            },
            final(self).peak() == if old(self)@.len() > 0 {
                peak_after_removal(old(self)@.len(), old(self).peak())
            } else {
                old(self).peak()
            },
            old(self)@.len() > 0 && rebuilds_after_removal(old(self)@.len(), old(self).peak())
                ==> pow(2, (final(self).height() - 1) as nat) <= final(self)@.len(),
            final(self).tree() == match old(self).tree() {
                Some(n) => after_removal(without_max(n), old(self)@.len(), old(self).peak()),
                None => None,
            },
    {
        proof {
            self.lemma_wf();
        }
        match self.tree.take() {
            None => None,
            Some(root) => {
                let ghost s = tree_seq(Some(root));
                let (rest, last) = take_max(root);
                proof {
                    lemma_lower_within(height(rest), height(old(self).tree), self.max as nat);
                }
                proof {
                    lemma_greatest_entry(s);
                    lemma_node(tree_seq(rest), last, Seq::empty());
                    assert(s =~= tree_seq(rest) + seq![last] + Seq::empty());
                    assert(tree_seq(rest) =~= tree_seq(rest) + Seq::empty());
                    lemma_empty::<V>();
                    assert(entries_map(tree_seq(rest)) =~= entries_map(s).remove(last.0));
                }
                self.tree = rest;
                self.remove_rebuild();
                Some(last)
            },
        }
    }
}

/// The map that inserting `pairs` in order into an empty map gives: a later
/// pair with the same key wins.
pub open spec fn map_of_pairs<V>(pairs: Seq<(u64, V)>) -> Map<u64, V>
    decreases pairs.len(),
{
    if pairs.len() == 0 {
        Map::empty()
    } else {
        map_of_pairs(pairs.drop_last()).insert(pairs.last().0, pairs.last().1)
    }
}

impl<V> Core<V> {
    /// The value under `key` for writing, if there is one; what is written
    /// through it becomes the value under `key`.
    fn get_mut(&mut self, key: &u64) -> (r: Option<&mut V>)
        requires
            old(self).wf(),
        ensures
            final(self).wf(),
            final(self).peak() == old(self).peak(),
            !old(self)@.contains_key(*key) ==> r is None && final(self)@ == old(self)@,
            old(self)@.contains_key(*key) ==> {
                &&& r is Some
                &&& *r.unwrap() == old(self)@[*key]
                &&& final(self)@ == old(self)@.insert(*key, *final(r.unwrap()))
                &&& final(self).tree() == replaced(old(self).tree(), *key, *final(r.unwrap()))
                &&& final(self).nested_form() == old(self).nested_form()
                &&& final(self).sideways_form() == old(self).sideways_form()
                &&& final(self).height() == old(self).height()
            },
            !old(self)@.contains_key(*key) ==> final(self).tree() == old(self).tree(),
        no_unwind
    {
        proof {
            self.lemma_wf();
        }
        let r = get_mut_in(&mut self.tree, *key);
        proof {
            if old(self)@.contains_key(*key) {
                let s = tree_seq(old(self).tree);
                let i = key_index(s, *key);
                lemma_entry_at(s, i);
                lemma_update_value(s, i, *final(r.unwrap()));
                lemma_replaced_shape(old(self).tree, *key, *final(r.unwrap()), Seq::empty(), Side::Root);
            }
        }
        r
    }
}

/// The tree that inserting `pairs` in order into an empty map builds.
pub open spec fn built<V>(pairs: Seq<(u64, V)>) -> Option<Box<Node<V>>>
    decreases pairs.len(),
{
    if pairs.len() == 0 {
        None
    } else {
        let t = built(pairs.drop_last());
        let k = pairs.last().0;
        let v = pairs.last().1;
        if tree_map(t).contains_key(k) {
            replaced(t, k, v)
        } else {
            inserted(t, k, v)
        }
    }
}

/// Inserting pairs one by one makes a finite map with at most as many keys
/// as pairs.
proof fn lemma_map_of_pairs_len<V>(pairs: Seq<(u64, V)>)
    ensures
        map_of_pairs(pairs).dom().finite(),
        map_of_pairs(pairs).len() <= pairs.len(),
    decreases pairs.len(),
{
    if pairs.len() > 0 {
        lemma_map_of_pairs_len(pairs.drop_last());
    }
}

impl<V> Core<V> {
    /// A map holding `pairs`, inserted one by one in order.
    fn from_pairs(pairs: Vec<(u64, V)>) -> (m: Self)
        ensures
            m.wf(),
            m@ == map_of_pairs(pairs@),
            m.tree() == built(pairs@),
            m.peak() == m@.len(),
    {
        let ghost all = pairs@;
        proof {
            assert(all.len() == pairs.len());
        }
        let mut pending = pairs;
        let mut reversed: Vec<(u64, V)> = Vec::new();
        while pending.len() > 0
            invariant
                pending@ == all.subrange(0, pending@.len() as int),
                pending@.len() + reversed@.len() == all.len(),
                forall|i: int|
                    0 <= i < reversed@.len() ==> #[trigger] reversed@[i] == all[all.len() - 1 - i],
                all.len() <= usize::MAX,
            decreases pending@.len(),
        {
            let x = pending.pop().unwrap();
            reversed.push(x);
            proof {
                assert(pending@ =~= all.subrange(0, pending@.len() as int));
            }
        }
        let mut m = Core::empty();
        let ghost mut done: Seq<(u64, V)> = Seq::empty();
        proof {
            assert(map_of_pairs(done) =~= Map::<u64, V>::empty());
        }
        while reversed.len() > 0
            invariant
                m.wf(),
                m@ == map_of_pairs(done),
                m.tree() == built(done),
                m.peak() == m@.len(),
                done == all.subrange(0, done.len() as int),
                done.len() + reversed@.len() == all.len(),
                forall|i: int|
                    0 <= i < reversed@.len() ==> #[trigger] reversed@[i] == all[all.len() - 1 - i],
                all.len() <= usize::MAX,
            decreases reversed@.len(),
        {
            let x = reversed.pop().unwrap();
            proof {
                m.lemma_wf();
                lemma_map_of_pairs_len(done);
            }
            m.insert(x.0, x.1);
            proof {
                let d = done.push(x);
                assert(d.drop_last() =~= done);
                m.lemma_wf();
                assert(built(d) == m.tree());
                assert(x == all[done.len() as int]);
                done = d;
                assert(done =~= all.subrange(0, done.len() as int));
            }
        }
        proof {
            assert(done =~= all);
        }
        m
    }
}

impl<V, A> View for ScapeGoatTreeMap<V, A> {
    type V = Map<u64, V>;

    closed spec fn view(&self) -> Map<u64, V> {
        self.core@
    }
}

impl<V, A> ScapeGoatTreeMap<V, A> {
    /// The invariant of every map: the tree is a search tree, `len` counts
    /// its entries, `max` is at least `len` and at most three halves of it,
    /// and the tree is balanced for `max`: no node lies deeper than
    /// `log_{3/2}(max)`.
    #[verifier::type_invariant]
    pub closed spec fn wf(&self) -> bool {
        self.core.wf()
    }

    /// The most entries the tree has held since it was last rebuilt whole.
    pub closed spec fn peak(&self) -> nat {
        self.core.peak()
    }

    /// The tree itself: its shape, with the entries at its nodes.
    pub closed spec fn tree(&self) -> Option<Box<Node<V>>> {
        self.core.tree()
    }

    /// The height of the tree: the number of nodes on its longest path down.
    pub closed spec fn height(&self) -> nat {
        height(self.tree())
    }

    /// The allocator handle the map was made with.
    pub closed spec fn allocator(&self) -> A {
        self.alloc
    }

    /// The entries in key order: those of the tree, read in order.
    pub open spec fn entries(&self) -> Seq<(u64, V)> {
        tree_seq(self.tree())
    }

    /// The nested form of the tree, as the map's compact display shows it.
    pub open spec fn nested_form(&self) -> Seq<Token> {
        nested_tokens(self.tree())
    }

    /// The sideways drawing of the tree, as the map's alternate display
    /// shows it.
    pub open spec fn sideways_form(&self) -> Seq<(Seq<bool>, Side, u64)> {
        drawing(self.tree(), Seq::empty(), Side::Root)
    }

    /// Takes the core out of the map, leaving an empty one in its place.
    fn take_core(&mut self) -> (c: Core<V>)
        ensures
            c == old(self).core,
            final(self).core == Core::<V>::empty_value(),
            final(self).alloc == old(self).alloc,
    {
        let mut c = Core::empty();
        std::mem::swap(&mut c, &mut self.core);
        c
    }
}

impl<V> ScapeGoatTreeMap<V> {
    /// An empty map.
    pub fn new() -> (m: Self)
        ensures
            m@ == Map::<u64, V>::empty(),
            m.peak() == 0,
            m.tree() == None::<Box<Node<V>>>,
    {
        ScapeGoatTreeMap { core: Core::empty(), alloc: Global }
    }

    /// A map holding `pairs`, inserted one by one in order: a later pair
    /// with the same key wins, and the peak count is the number of keys.
    pub fn from_iter(pairs: Vec<(u64, V)>) -> (m: Self)
        ensures
            m@ == map_of_pairs(pairs@),
            m.tree() == built(pairs@),
            m.peak() == m@.len(),
    {
        ScapeGoatTreeMap { core: Core::from_pairs(pairs), alloc: Global }
    }
}

impl<V, A> ScapeGoatTreeMap<V, A> {
    /// An empty map that holds on to `alloc`; its nodes still come from the
    /// global allocator.
    pub fn new_in(alloc: A) -> (m: Self)
        ensures
            m@ == Map::<u64, V>::empty(),
            m.peak() == 0,
            m.allocator() == alloc,
            m.tree() == None::<Box<Node<V>>>,
    {
        ScapeGoatTreeMap { core: Core::empty(), alloc }
    }

    /// The most entries the tree has held since it was last rebuilt whole.
    pub fn max_len(&self) -> (n: usize)
        ensures
            n == self.peak(),
    {
        self.core.max
    }

    /// The number of entries.
    pub fn len(&self) -> (n: usize)
        ensures
            n == self@.len(),
    {
        proof {
            use_type_invariant(self);
            self.core.lemma_wf();
        }
        self.core.len
    }

    /// Whether the map has no entries.
    pub fn is_empty(&self) -> (b: bool)
        ensures
            b == (self@.len() == 0),
    {
        proof {
            use_type_invariant(self);
            self.core.lemma_wf();
        }
        self.core.len == 0
    }

    /// Removes every entry.
    pub fn clear(&mut self)
        ensures
            final(self)@ == Map::<u64, V>::empty(),
            final(self).peak() == 0,
            final(self).tree() == None::<Box<Node<V>>>,
            final(self).allocator() == old(self).allocator(),
    {
        self.core = Core::empty();
    }

    /// Whether `key` has an entry.
    pub fn contains_key(&self, key: &u64) -> (b: bool)
        ensures
            b == self@.contains_key(*key),
    {
        self.get(key).is_some()
    }

    /// The value under `key`, if there is one.
    pub fn get(&self, key: &u64) -> (r: Option<&V>)
        ensures
            match r {
                Some(v) => self@.contains_key(*key) && *v == self@[*key],
                None => !self@.contains_key(*key),
            },
    {
        proof {
            use_type_invariant(self);
        }
        get_in(&self.core.tree, *key)
    }

    /// Puts `value` under `key` and hands back the value it replaced.
    ///
    /// A new key goes in as a leaf at the end of its search path. When that
    /// depth exceeds `log_{3/2}` of the new number of entries, the walk back
    /// up the path finds the scapegoat, the lowest node on it whose child on
    /// the path holds more than two thirds of its subtree, and rebuilds that
    /// subtree balanced.
    pub fn insert(&mut self, key: u64, value: V) -> (r: Option<V>)
        requires
            old(self)@.len() < usize::MAX,
        ensures
            final(self)@ == old(self)@.insert(key, value),
            r == if old(self)@.contains_key(key) {
                Some(old(self)@[key])
            } else {
                None::<V>
            },
            old(self)@.contains_key(key) ==> final(self).peak() == old(self).peak(),
            !old(self)@.contains_key(key) ==> final(self).peak() == if old(self).peak()
                < final(self)@.len() {
                final(self)@.len()
            } else {
                old(self).peak()
            },
            final(self).allocator() == old(self).allocator(),
            final(self).tree() == if old(self)@.contains_key(key) {
                replaced(old(self).tree(), key, value)
            } else {
                inserted(old(self).tree(), key, value)
            },
            final(self).height() <= old(self).height() || within_log_bound(
                (final(self).height() - 1) as nat,
                final(self)@.len(),
            ),
            old(self)@.contains_key(key) ==> {
                &&& final(self).nested_form() == old(self).nested_form()
                &&& final(self).sideways_form() == old(self).sideways_form()
                &&& final(self).height() == old(self).height()
            },
            !old(self)@.contains_key(key) && !within_log_bound(
                search_path(old(self).tree(), key).len(),
                final(self)@.len(),
            ) ==> final(self).height() <= old(self).height(),
    {
        proof {
            use_type_invariant(&*self);
        }
        let mut c = self.take_core();
        let r = c.insert(key, value);
        self.core = c;
        r
    }

    /// Removes the entry of `key` and hands it back, if there is one.
    ///
    /// A node with two children takes the place of its successor, the least
    /// key of its right subtree. When the count then falls below two thirds
    /// of the peak count, the whole tree is rebuilt balanced.
    pub fn remove_entry(&mut self, key: &u64) -> (r: Option<(u64, V)>)
        ensures
            final(self)@ == old(self)@.remove(*key),
            r == if old(self)@.contains_key(*key) {
                Some((*key, old(self)@[*key]))
            } else {
                None::<(u64, V)>
            },
            final(self).peak() == if old(self)@.contains_key(*key) {
                peak_after_removal(old(self)@.len(), old(self).peak())
            } else {
                old(self).peak()
            },
            old(self)@.contains_key(*key) && rebuilds_after_removal(old(self)@.len(), old(self).peak())
                ==> pow(2, (final(self).height() - 1) as nat) <= final(self)@.len(),
            final(self).tree() == if old(self)@.contains_key(*key) {
                after_removal(removed(old(self).tree(), *key), old(self)@.len(), old(self).peak())
            } else {
                old(self).tree()
            },
            final(self).allocator() == old(self).allocator(),
    {
        proof {
            use_type_invariant(&*self);
        }
        let mut c = self.take_core();
        let r = c.remove_entry(key);
        self.core = c;
        r
    }

    /// Removes the entry of `key` and hands back its value, if there is one.
    pub fn remove(&mut self, key: &u64) -> (r: Option<V>)
        ensures
            final(self)@ == old(self)@.remove(*key),
            r == if old(self)@.contains_key(*key) {
                Some(old(self)@[*key])
            } else {
                None::<V>
            },
            final(self).peak() == if old(self)@.contains_key(*key) {
                peak_after_removal(old(self)@.len(), old(self).peak())
            } else {
                old(self).peak()
            },
            old(self)@.contains_key(*key) && rebuilds_after_removal(old(self)@.len(), old(self).peak())
                ==> pow(2, (final(self).height() - 1) as nat) <= final(self)@.len(),
            final(self).tree() == if old(self)@.contains_key(*key) {
                after_removal(removed(old(self).tree(), *key), old(self)@.len(), old(self).peak())
            } else {
                old(self).tree()
            },
            final(self).allocator() == old(self).allocator(),
    {
        match self.remove_entry(key) {
            Some(e) => Some(e.1),
            None => None,
        }
    }

    /// The entry with the least key, if any.
    pub fn first_key_value(&self) -> (r: Option<(&u64, &V)>)
        ensures
            match r {
                Some((k, v)) => is_least_key(self@, *k) && *v == self@[*k],
                None => self@.len() == 0,
            },
    {
        proof {
            use_type_invariant(self);
            self.core.lemma_wf();
        }
        let r = first_in(&self.core.tree);
        proof {
            if r is Some {
                lemma_least_entry(tree_seq(self.core.tree));
            }
        }
        r
    }

    /// The entry with the greatest key, if any.
    pub fn last_key_value(&self) -> (r: Option<(&u64, &V)>)
        ensures
            match r {
                Some((k, v)) => is_greatest_key(self@, *k) && *v == self@[*k],
                None => self@.len() == 0,
            },
    {
        proof {
            use_type_invariant(self);
            self.core.lemma_wf();
        }
        let r = last_in(&self.core.tree);
        proof {
            if r is Some {
                lemma_greatest_entry(tree_seq(self.core.tree));
            }
        }
        r
    }

    /// Removes the entry with the least key and hands it back, if any.
    pub fn pop_first(&mut self) -> (r: Option<(u64, V)>)
        ensures
            match r {
                Some((k, v)) => {
                    &&& is_least_key(old(self)@, k)
                    &&& v == old(self)@[k]
                    &&& final(self)@ == old(self)@.remove(k)
                },
                None => old(self)@.len() == 0 && final(self)@ == old(self)@,
            },
            final(self).peak() == if old(self)@.len() > 0 {
                peak_after_removal(old(self)@.len(), old(self).peak())
            } else {
                old(self).peak()
            },
            old(self)@.len() > 0 && rebuilds_after_removal(old(self)@.len(), old(self).peak())
                ==> pow(2, (final(self).height() - 1) as nat) <= final(self)@.len(),
            final(self).tree() == match old(self).tree() {
                Some(n) => after_removal(without_min(n), old(self)@.len(), old(self).peak()),
                None => None,
            },
            final(self).allocator() == old(self).allocator(),
    {
        proof {
            use_type_invariant(&*self);
        }
        let mut c = self.take_core();
        let r = c.pop_first();
        self.core = c;
        r
    }

    /// Removes the entry with the greatest key and hands it back, if any.
    pub fn pop_last(&mut self) -> (r: Option<(u64, V)>)
        ensures
            match r {
                Some((k, v)) => {
                    &&& is_greatest_key(old(self)@, k)
                    &&& v == old(self)@[k]
                    &&& final(self)@ == old(self)@.remove(k)
                },
                None => old(self)@.len() == 0 && final(self)@ == old(self)@,
            },
            final(self).peak() == if old(self)@.len() > 0 {
                peak_after_removal(old(self)@.len(), old(self).peak())
            } else {
                old(self).peak()
            },
            old(self)@.len() > 0 && rebuilds_after_removal(old(self)@.len(), old(self).peak())
                ==> pow(2, (final(self).height() - 1) as nat) <= final(self)@.len(),
            final(self).tree() == match old(self).tree() {
                Some(n) => after_removal(without_max(n), old(self)@.len(), old(self).peak()),
                None => None,
            },
            final(self).allocator() == old(self).allocator(),
    {
        proof {
            use_type_invariant(&*self);
        }
        let mut c = self.take_core();
        let r = c.pop_last();
        self.core = c;
        r
    }

    /// The value under `key` for writing, if there is one; what is written
    /// through it becomes the value under `key`, and the tree keeps its
    /// shape.
    pub fn get_mut(&mut self, key: &u64) -> (r: Option<&mut V>)
        ensures
            final(self).allocator() == old(self).allocator(),
            final(self).peak() == old(self).peak(),
            !old(self)@.contains_key(*key) ==> r is None && final(self)@ == old(self)@,
            old(self)@.contains_key(*key) ==> {
                &&& r is Some
                &&& *r.unwrap() == old(self)@[*key]
                &&& final(self)@ == old(self)@.insert(*key, *final(r.unwrap()))
                &&& final(self).tree() == replaced(old(self).tree(), *key, *final(r.unwrap()))
                &&& final(self).nested_form() == old(self).nested_form()
                &&& final(self).sideways_form() == old(self).sideways_form()
                &&& final(self).height() == old(self).height()
            },
            !old(self)@.contains_key(*key) ==> final(self).tree() == old(self).tree(),
    {
        proof {
            use_type_invariant(&*self);
        }
        self.core.get_mut(key)
    }

    /// The tree in nested form: `(left ← key:value → right)` at each node.
    /// Every entry it names is a key of the map.
    pub fn display_tokens(&self) -> (r: Vec<Token>)
        ensures
            r@ == self.nested_form(),
            forall|i: int|
                0 <= i < r@.len() && (#[trigger] r@[i] is Entry) ==> self@.contains_key(
                    r@[i]->Entry_0,
                ),
    {
        proof {
            use_type_invariant(self);
            self.core.lemma_wf();
            lemma_nested_keys(self.core.tree);
        }
        let mut out: Vec<Token> = Vec::new();
        push_nested(&self.core.tree, &mut out);
        proof {
            assert(out@ =~= self.nested_form());
        }
        out
    }

    /// The tree drawn sideways, one line per node from the greatest key to
    /// the least. Every line names a key of the map.
    pub fn display_lines(&self) -> (r: Vec<Line>)
        ensures
            lines_view(r@) == self.sideways_form(),
            forall|i: int| 0 <= i < r@.len() ==> self@.contains_key(#[trigger] r@[i].key),
    {
        proof {
            use_type_invariant(self);
            self.core.lemma_wf();
            lemma_drawing_keys(self.core.tree, Seq::empty(), Side::Root);
        }
        let mut out: Vec<Line> = Vec::new();
        let bars: Vec<bool> = Vec::new();
        proof {
            assert(bars@ =~= Seq::<bool>::empty());
        }
        push_drawing(&self.core.tree, &bars, Side::Root, &mut out);
        proof {
            assert(lines_view(Seq::<Line>::empty()) =~= Seq::empty());
            assert(lines_view(out@) =~= self.sideways_form());
            assert forall|i: int| 0 <= i < out@.len() implies lines_view(out@)[i].2 == #[trigger] out@[i].key by {
            }
        }
        out
    }
}

impl<V, A> ScapeGoatTreeMap<V, A> {
    /// A well-formed map never counts more entries than `max`: the count of
    /// entries since the last whole rebuild bounds the current count.
    pub proof fn law_len_within_max(&self)
        requires
            self.wf(),
        ensures
            self@.len() <= self.peak(),
    {
        self.core.lemma_wf();
    }

    /// The entries in key order stand for the map: they are sorted by key,
    /// with no key twice, and there is one entry per key.
    pub proof fn law_entries_sorted(&self)
        requires
            self.wf(),
        ensures
            self.entries() == tree_seq(self.tree()),
            keys_sorted(self.entries()),
            self@ == entries_map(self.entries()),
            self.entries().len() == self@.len(),
    {
        self.core.lemma_wf();
    }
}

impl<V, A> ScapeGoatTreeMap<V, A> {
    /// No tree of `n` entries is lower than `log2(n + 1)`: the entries number
    /// fewer than `2^height`. (That a whole rebuild reaches this least height,
    /// `2^(height - 1) <= n`, is stated by the removals that rebuild.)
    pub proof fn law_height_at_least_log(&self)
        requires
            self.wf(),
        ensures
            self@.len() < pow(2, self.height()),
    {
        self.core.lemma_wf();
        lemma_size_below_pow(self.core.tree);
    }
}

impl<V, A> ScapeGoatTreeMap<V, A> {
    /// The scapegoat balance: every node lies at most `log_{3/2}(max)` levels
    /// below the root, where `max` is the peak count of entries since the
    /// last whole rebuild, which is at most `3/2` of the current count
    /// unless the map was emptied. Every operation keeps this.
    pub proof fn law_height_logarithmic(&self)
        requires
            self.wf(),
        ensures
            height_within_peak(self.height(), self.peak()),
            self.height() == 0 || within_log_bound((self.height() - 1) as nat, self.peak()),
    {
    }
}

impl<V, A> ScapeGoatTreeMap<V, A> {
    /// The peak count stays within three halves of the count: a whole
    /// rebuild comes as soon as removals take the count below two thirds of
    /// the peak.
    pub proof fn law_peak_within_three_halves(&self)
        requires
            self.wf(),
        ensures
            peak_within_three_halves(self@.len(), self.peak()),
    {
        self.core.lemma_wf();
    }

    /// The height is logarithmic in the count: every node lies at most
    /// `log_{3/2}(len) + 1` levels below the root.
    pub proof fn law_height_logarithmic_in_len(&self)
        requires
            self.wf(),
        ensures
            self.height() <= 1 || within_log_bound((self.height() - 2) as nat, self@.len()),
    {
        self.core.lemma_wf();
        let h = self.height();
        if h > 1 {
            let k = (h - 2) as nat;
            lemma_pow_unfold(3, k);
            lemma_pow_unfold(2, k);
            lemma_pow_positive(2, k);
            let a = pow(3, k);
            let b = pow(2, k);
            let m = self.core.max as int;
            let n = self.core.len as int;
            assert(self.core.tree is Some);
            assert(n > 0) by {
                let node = self.core.tree.unwrap();
                assert(tree_seq(self.core.tree) == tree_seq(node.left) + seq![(node.key, node.value)]
                    + tree_seq(node.right));
            }
            assert(a <= n * b) by (nonlinear_arith)
                requires
                    3 * a <= m * (2 * b),
                    2 * m <= 3 * n,
                    b > 0,
            ;
        }
    }
}

} // verus!
