//! Sequences of entries in key order, and the map that such a sequence
//! stands for.
use vstd::prelude::*;

verus! {

/// Keys strictly increase along `s`: the entries are in key order and no
/// key occurs twice.
pub open spec fn keys_sorted<V>(s: Seq<(u64, V)>) -> bool {
    forall|i: int, j: int| 0 <= i < j < s.len() ==> #[trigger] s[i].0 < #[trigger] s[j].0
}

/// Some entry of `s` has the key `k`.
pub open spec fn has_key<V>(s: Seq<(u64, V)>, k: u64) -> bool {
    exists|i: int| 0 <= i < s.len() && #[trigger] s[i].0 == k
}

/// The position of an entry of `s` with the key `k`, where there is one.
pub open spec fn key_index<V>(s: Seq<(u64, V)>, k: u64) -> int {
    choose|i: int| 0 <= i < s.len() && #[trigger] s[i].0 == k
}

/// The map from each key of `s` to the value of its entry.
pub open spec fn entries_map<V>(s: Seq<(u64, V)>) -> Map<u64, V> {
    Map::new(|k: u64| has_key(s, k), |k: u64| s[key_index(s, k)].1)
}

/// In a key-sorted sequence, an entry is found again by its key.
pub proof fn lemma_entry_at<V>(s: Seq<(u64, V)>, i: int)
    requires
        keys_sorted(s),
        0 <= i < s.len(),
    ensures
        entries_map(s).contains_key(s[i].0),
        entries_map(s)[s[i].0] == s[i].1,
        key_index(s, s[i].0) == i,
{
    assert(has_key(s, s[i].0));
    let j = key_index(s, s[i].0);
    if j < i {
        assert(s[j].0 < s[i].0);
    } else if j > i {
        assert(s[i].0 < s[j].0);
    }
}

/// A key-sorted sequence split in two stands for the union of the maps of
/// the parts, whose keys all lie on either side of each other.
pub proof fn lemma_concat<V>(a: Seq<(u64, V)>, b: Seq<(u64, V)>)
    requires
        keys_sorted(a + b),
    ensures
        keys_sorted(a),
        keys_sorted(b),
        forall|i: int, j: int| 0 <= i < a.len() && 0 <= j < b.len() ==> #[trigger] a[i].0
            < #[trigger] b[j].0,
        entries_map(a + b) == entries_map(a).union_prefer_right(entries_map(b)),
{
    let s = a + b;
    assert forall|i: int, j: int| 0 <= i < j < a.len() implies #[trigger] a[i].0
        < #[trigger] a[j].0 by {
        assert(s[i] == a[i] && s[j] == a[j]);
    }
    assert forall|i: int, j: int| 0 <= i < j < b.len() implies #[trigger] b[i].0
        < #[trigger] b[j].0 by {
        assert(s[a.len() + i] == b[i] && s[a.len() + j] == b[j]);
    }
    assert forall|i: int, j: int| 0 <= i < a.len() && 0 <= j < b.len() implies #[trigger] a[i].0
        < #[trigger] b[j].0 by {
        assert(s[i] == a[i] && s[a.len() + j] == b[j]);
    }
    let m = entries_map(s);
    let u = entries_map(a).union_prefer_right(entries_map(b));
    assert forall|k: u64| #[trigger] m.contains_key(k) <==> u.contains_key(k) by {
        if has_key(s, k) {
            let i = choose|i: int| 0 <= i < s.len() && #[trigger] s[i].0 == k;
            if i < a.len() {
                assert(a[i] == s[i]);
                assert(has_key(a, k));
            } else {
                assert(b[i - a.len()] == s[i]);
                assert(has_key(b, k));
            }
        }
        if has_key(a, k) {
            let i = choose|i: int| 0 <= i < a.len() && #[trigger] a[i].0 == k;
            assert(s[i] == a[i]);
            assert(has_key(s, k));
        }
        if has_key(b, k) {
            let j = choose|j: int| 0 <= j < b.len() && #[trigger] b[j].0 == k;
            assert(s[a.len() + j] == b[j]);
            assert(has_key(s, k));
        }
    }
    assert forall|k: u64| #[trigger] m.contains_key(k) implies m[k] == u[k] by {
        if has_key(b, k) {
            let j = choose|j: int| 0 <= j < b.len() && #[trigger] b[j].0 == k;
            lemma_entry_at(b, j);
            assert(s[a.len() + j] == b[j]);
            lemma_entry_at(s, a.len() + j);
        } else {
            assert(has_key(a, k));
            let i = choose|i: int| 0 <= i < a.len() && #[trigger] a[i].0 == k;
            lemma_entry_at(a, i);
            assert(s[i] == a[i]);
            lemma_entry_at(s, i);
        }
    }
    assert(m =~= u);
}

/// A single entry stands for a map of one key.
pub proof fn lemma_single<V>(x: (u64, V))
    ensures
        entries_map(seq![x]) == map![x.0 => x.1],
        keys_sorted(seq![x]),
{
    let s = seq![x];
    assert(s[0] == x);
    assert(has_key(s, x.0));
    lemma_entry_at(s, 0);
    assert(entries_map(s) =~= map![x.0 => x.1]);
}

/// No entries stand for the empty map.
pub proof fn lemma_empty<V>()
    ensures
        entries_map(Seq::<(u64, V)>::empty()) == Map::<u64, V>::empty(),
        keys_sorted(Seq::<(u64, V)>::empty()),
{
    assert(entries_map(Seq::<(u64, V)>::empty()) =~= Map::<u64, V>::empty());
}

/// The shape of a tree node: the map of `a + [x] + b` puts `x` over the
/// union of the maps of `a` and `b`, with the keys of `a` below `x.0` and
/// those of `b` above.
pub proof fn lemma_node<V>(a: Seq<(u64, V)>, x: (u64, V), b: Seq<(u64, V)>)
    requires
        keys_sorted(a + seq![x] + b),
    ensures
        keys_sorted(a),
        keys_sorted(b),
        forall|k: u64| entries_map(a).contains_key(k) ==> k < x.0,
        forall|k: u64| entries_map(b).contains_key(k) ==> x.0 < k,
        entries_map(a + seq![x] + b) == entries_map(a).union_prefer_right(
            entries_map(b),
        ).insert(x.0, x.1),
        entries_map(a + b) == entries_map(a).union_prefer_right(entries_map(b)),
        keys_sorted(a + b),
{
    let ax = a + seq![x];
    lemma_concat(ax, b);
    lemma_concat(a, seq![x]);
    lemma_single(x);
    assert forall|k: u64| entries_map(a).contains_key(k) implies k < x.0 by {
        let i = choose|i: int| 0 <= i < a.len() && #[trigger] a[i].0 == k;
        assert(seq![x][0] == x);
    }
    assert forall|k: u64| entries_map(b).contains_key(k) implies x.0 < k by {
        let j = choose|j: int| 0 <= j < b.len() && #[trigger] b[j].0 == k;
        assert(ax[a.len() as int] == x);
    }
    assert(entries_map(a + seq![x] + b) =~= entries_map(a).union_prefer_right(
        entries_map(b),
    ).insert(x.0, x.1));
    let ab = a + b;
    assert forall|i: int, j: int| 0 <= i < j < ab.len() implies #[trigger] ab[i].0
        < #[trigger] ab[j].0 by {
        if j < a.len() {
            assert(ab[i] == a[i] && ab[j] == a[j]);
        } else if i >= a.len() {
            assert(ab[i] == b[i - a.len()] && ab[j] == b[j - a.len()]);
        } else {
            assert(ab[i] == a[i] && ab[j] == b[j - a.len()]);
            assert(ax[i] == a[i]);
        }
    }
    lemma_concat(a, b);
}

/// Replacing the value of an entry replaces the value of its key.
pub proof fn lemma_update_value<V>(s: Seq<(u64, V)>, i: int, v: V)
    requires
        keys_sorted(s),
        0 <= i < s.len(),
    ensures
        keys_sorted(s.update(i, (s[i].0, v))),
        entries_map(s.update(i, (s[i].0, v))) == entries_map(s).insert(s[i].0, v),
{
    let t = s.update(i, (s[i].0, v));
    assert forall|a: int, b: int| 0 <= a < b < t.len() implies #[trigger] t[a].0
        < #[trigger] t[b].0 by {
        assert(s[a].0 < s[b].0);
    }
    assert forall|k: u64| #[trigger] entries_map(t).contains_key(k) <==> entries_map(
        s,
    ).insert(s[i].0, v).contains_key(k) by {
        if has_key(t, k) {
            let j = choose|j: int| 0 <= j < t.len() && #[trigger] t[j].0 == k;
            assert(s[j].0 == k);
        }
        if has_key(s, k) {
            let j = choose|j: int| 0 <= j < s.len() && #[trigger] s[j].0 == k;
            assert(t[j].0 == k);
        }
        if k == s[i].0 {
            assert(t[i].0 == k);
        }
    }
    assert forall|k: u64| #[trigger] entries_map(t).contains_key(k) implies entries_map(t)[k]
        == entries_map(s).insert(s[i].0, v)[k] by {
        let j = choose|j: int| 0 <= j < t.len() && #[trigger] t[j].0 == k;
        lemma_entry_at(t, j);
        lemma_entry_at(s, j);
    }
    assert(entries_map(t) =~= entries_map(s).insert(s[i].0, v));
}

/// The map of a key-sorted sequence has as many keys as it has entries.
pub proof fn lemma_len<V>(s: Seq<(u64, V)>)
    requires
        keys_sorted(s),
    ensures
        entries_map(s).dom().finite(),
        entries_map(s).len() == s.len(),
{
    let ks = s.map_values(|e: (u64, V)| e.0);
    assert forall|i: int, j: int|
        (0 <= i < ks.len() && 0 <= j < ks.len() && i != j) implies ks[i] != ks[j] by {
        if i < j {
            assert(s[i].0 < s[j].0);
        } else {
            assert(s[j].0 < s[i].0);
        }
    }
    assert(ks.no_duplicates());
    ks.unique_seq_to_set();
    assert forall|k: u64| #[trigger] entries_map(s).dom().contains(k) <==> ks.to_set().contains(
        k,
    ) by {
        if has_key(s, k) {
            let i = choose|i: int| 0 <= i < s.len() && #[trigger] s[i].0 == k;
            assert(ks[i] == k);
        }
        if ks.to_set().contains(k) {
            let i = choose|i: int| 0 <= i < ks.len() && ks[i] == k;
            assert(s[i].0 == k);
        }
    }
    assert(entries_map(s).dom() =~= ks.to_set());
    vstd::seq_lib::seq_to_set_is_finite(ks);
}

/// Two sorted sequences, all keys of the first below all keys of the
/// second, make a sorted sequence.
pub proof fn lemma_sorted_concat<V>(a: Seq<(u64, V)>, b: Seq<(u64, V)>)
    requires
        keys_sorted(a),
        keys_sorted(b),
        forall|i: int, j: int| 0 <= i < a.len() && 0 <= j < b.len() ==> #[trigger] a[i].0
            < #[trigger] b[j].0,
    ensures
        keys_sorted(a + b),
{
    let s = a + b;
    let n = a.len() as int;
    assert forall|i: int, j: int| 0 <= i < j < s.len() implies #[trigger] s[i].0
        < #[trigger] s[j].0 by {
        if j < n {
            assert(s[i] == a[i] && s[j] == a[j]);
        } else if i >= n {
            assert(s[i] == b[i - n] && s[j] == b[j - n]);
        } else {
            assert(s[i] == a[i] && s[j] == b[j - n]);
        }
    }
}

/// Keys below `x.0` may replace the part of a sorted sequence left of `x`:
/// the result is still sorted.
pub proof fn lemma_keys_below<V>(a: Seq<(u64, V)>, a2: Seq<(u64, V)>, x: (u64, V), b: Seq<(u64, V)>)
    requires
        keys_sorted(a + seq![x] + b),
        keys_sorted(a2),
        forall|k: u64| entries_map(a2).contains_key(k) ==> k < x.0,
    ensures
        keys_sorted(a2 + seq![x] + b),
{
    lemma_node(a, x, b);
    lemma_single(x);
    let xs = seq![x];
    assert forall|i: int, j: int| 0 <= i < a2.len() && 0 <= j < xs.len() implies #[trigger] a2[i].0
        < #[trigger] xs[j].0 by {
        lemma_entry_at(a2, i);
    }
    lemma_sorted_concat(a2, xs);
    let a2x = a2 + xs;
    assert forall|i: int, j: int| 0 <= i < a2x.len() && 0 <= j < b.len() implies #[trigger] a2x[i].0
        < #[trigger] b[j].0 by {
        lemma_entry_at(b, j);
        if i < a2.len() {
            lemma_entry_at(a2, i);
            assert(a2x[i] == a2[i]);
        } else {
            assert(a2x[i] == x);
        }
    }
    lemma_sorted_concat(a2x, b);
}

/// Keys above `x.0` may replace the part of a sorted sequence right of
/// `x`: the result is still sorted.
pub proof fn lemma_keys_above<V>(a: Seq<(u64, V)>, x: (u64, V), b: Seq<(u64, V)>, b2: Seq<(u64, V)>)
    requires
        keys_sorted(a + seq![x] + b),
        keys_sorted(b2),
        forall|k: u64| entries_map(b2).contains_key(k) ==> x.0 < k,
    ensures
        keys_sorted(a + seq![x] + b2),
{
    lemma_node(a, x, b);
    lemma_single(x);
    let xs = seq![x];
    assert forall|i: int, j: int| 0 <= i < xs.len() && 0 <= j < b2.len() implies #[trigger] xs[i].0
        < #[trigger] b2[j].0 by {
        lemma_entry_at(b2, j);
    }
    lemma_sorted_concat(xs, b2);
    let xb2 = xs + b2;
    assert forall|i: int, j: int| 0 <= i < a.len() && 0 <= j < xb2.len() implies #[trigger] a[i].0
        < #[trigger] xb2[j].0 by {
        lemma_entry_at(a, i);
        if j == 0 {
            assert(xb2[j] == x);
        } else {
            lemma_entry_at(b2, j - 1);
            assert(xb2[j] == b2[j - 1]);
        }
    }
    lemma_sorted_concat(a, xb2);
    assert(a + xb2 =~= a + seq![x] + b2);
}

/// The first entry of a sorted sequence holds its least key.
pub proof fn lemma_least_entry<V>(s: Seq<(u64, V)>)
    requires
        keys_sorted(s),
        s.len() > 0,
    ensures
        entries_map(s).contains_key(s[0].0),
        entries_map(s)[s[0].0] == s[0].1,
        forall|j: u64| entries_map(s).contains_key(j) ==> s[0].0 <= j,
{
    lemma_entry_at(s, 0);
    assert forall|j: u64| entries_map(s).contains_key(j) implies s[0].0 <= j by {
        let i = choose|i: int| 0 <= i < s.len() && #[trigger] s[i].0 == j;
        if i > 0 {
            assert(s[0].0 < s[i].0);
        }
    }
}

/// The last entry of a sorted sequence holds its greatest key.
pub proof fn lemma_greatest_entry<V>(s: Seq<(u64, V)>)
    requires
        keys_sorted(s),
        s.len() > 0,
    ensures
        entries_map(s).contains_key(s.last().0),
        entries_map(s)[s.last().0] == s.last().1,
        forall|j: u64| entries_map(s).contains_key(j) ==> j <= s.last().0,
{
    lemma_entry_at(s, s.len() - 1);
    assert forall|j: u64| entries_map(s).contains_key(j) implies j <= s.last().0 by {
        let i = choose|i: int| 0 <= i < s.len() && #[trigger] s[i].0 == j;
        if i < s.len() - 1 {
            assert(s[i].0 < s[s.len() - 1].0);
        }
    }
}

} // verus!
