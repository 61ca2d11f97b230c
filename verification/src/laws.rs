//! Laws that relate the operations of the map to each other, stated over
//! the views that their contracts use.
use vstd::prelude::*;
use crate::map::{ScapeGoatTreeMap, is_least_key, is_greatest_key, map_of_pairs};

verus! {

/// A read after a write: after `insert(k, v)`, `get(k)` gives `v`, and
/// every other key keeps its entry.
pub proof fn law_get_after_insert<V, A>(
    before: ScapeGoatTreeMap<V, A>,
    after: ScapeGoatTreeMap<V, A>,
    k: u64,
    v: V,
)
    requires
        after@ == before@.insert(k, v),
    ensures
        after@.contains_key(k),
        after@[k] == v,
        forall|j: u64| j != k ==> (after@.contains_key(j) == before@.contains_key(j)),
        forall|j: u64| j != k && before@.contains_key(j) ==> after@[j] == before@[j],
{
}

/// Removing a key that an insert just added gives back the map as it was.
pub proof fn law_remove_undoes_insert<V, A>(
    before: ScapeGoatTreeMap<V, A>,
    inserted: ScapeGoatTreeMap<V, A>,
    removed: ScapeGoatTreeMap<V, A>,
    k: u64,
    v: V,
)
    requires
        !before@.contains_key(k),
        inserted@ == before@.insert(k, v),
        removed@ == inserted@.remove(k),
    ensures
        removed@ == before@,
{
    assert(removed@ =~= before@);
}

/// After a remove, the key has no entry, whether or not it had one.
pub proof fn law_absent_after_remove<V, A>(
    before: ScapeGoatTreeMap<V, A>,
    after: ScapeGoatTreeMap<V, A>,
    k: u64,
)
    requires
        after@ == before@.remove(k),
    ensures
        !after@.contains_key(k),
{
}

/// An insert of a new key adds one entry; an insert over an existing key
/// keeps the count.
pub proof fn law_insert_len<V, A>(
    before: ScapeGoatTreeMap<V, A>,
    after: ScapeGoatTreeMap<V, A>,
    k: u64,
    v: V,
)
    requires
        before@.dom().finite(),
        after@ == before@.insert(k, v),
    ensures
        after@.len() == if before@.contains_key(k) {
            before@.len()
        } else {
            before@.len() + 1
        },
{
}

/// A map has one least key: what `first_key_value` shows is what
/// `pop_first` takes.
pub proof fn law_least_key_unique<V>(m: Map<u64, V>, k1: u64, k2: u64)
    requires
        is_least_key(m, k1),
        is_least_key(m, k2),
    ensures
        k1 == k2,
{
}

/// A map has one greatest key: what `last_key_value` shows is what
/// `pop_last` takes.
pub proof fn law_greatest_key_unique<V>(m: Map<u64, V>, k1: u64, k2: u64)
    requires
        is_greatest_key(m, k1),
        is_greatest_key(m, k2),
    ensures
        k1 == k2,
{
}

/// Popping the least key leaves only greater keys: repeated `pop_first`
/// hands the entries out in increasing key order.
pub proof fn law_pop_first_ascending<V>(before: Map<u64, V>, after: Map<u64, V>, k: u64)
    requires
        is_least_key(before, k),
        after == before.remove(k),
    ensures
        forall|j: u64| after.contains_key(j) ==> k < j,
{
}

/// Popping the greatest key leaves only smaller keys: repeated `pop_last`
/// hands the entries out in decreasing key order.
pub proof fn law_pop_last_descending<V>(before: Map<u64, V>, after: Map<u64, V>, k: u64)
    requires
        is_greatest_key(before, k),
        after == before.remove(k),
    ensures
        forall|j: u64| after.contains_key(j) ==> j < k,
{
}

/// When all keys of `pairs` differ, the map built from them holds exactly
/// the pairs, whatever their order.
pub proof fn law_from_distinct_pairs<V>(pairs: Seq<(u64, V)>)
    requires
        forall|i: int, j: int| 0 <= i < j < pairs.len() ==> pairs[i].0 != pairs[j].0,
    ensures
        forall|i: int| 0 <= i < pairs.len() ==> map_of_pairs(pairs).contains_key(#[trigger] pairs[i].0)
            && map_of_pairs(pairs)[pairs[i].0] == pairs[i].1,
        forall|k: u64| map_of_pairs(pairs).contains_key(k) ==> exists|i: int| 0 <= i < pairs.len() && #[trigger] pairs[i].0 == k,
    decreases pairs.len(),
{
    if pairs.len() > 0 {
        let init = pairs.drop_last();
        assert forall|i: int, j: int| 0 <= i < j < init.len() implies init[i].0 != init[j].0 by {
            assert(init[i] == pairs[i] && init[j] == pairs[j]);
        }
        law_from_distinct_pairs(init);
        assert(map_of_pairs(pairs) == map_of_pairs(init).insert(pairs.last().0, pairs.last().1));
        assert forall|i: int| 0 <= i < pairs.len() implies map_of_pairs(pairs).contains_key(
            #[trigger] pairs[i].0,
        ) && map_of_pairs(pairs)[pairs[i].0] == pairs[i].1 by {
            if i < pairs.len() - 1 {
                assert(init[i] == pairs[i]);
            }
        }
        assert forall|k: u64| map_of_pairs(pairs).contains_key(k) implies exists|i: int|
            0 <= i < pairs.len() && #[trigger] pairs[i].0 == k by {
            if k == pairs.last().0 {
                assert(pairs[pairs.len() - 1].0 == k);
            } else {
                assert(map_of_pairs(init).contains_key(k));
                let i = choose|i: int| 0 <= i < init.len() && #[trigger] init[i].0 == k;
                assert(pairs[i] == init[i]);
            }
        }
    }
}

/// One step of a run of `pop_first` calls: `states[i + 1]` is `states[i]`
/// without its least key `keys[i]`.
pub open spec fn pops_first_run<V>(states: Seq<Map<u64, V>>, keys: Seq<u64>) -> bool {
    &&& states.len() == keys.len() + 1
    &&& forall|i: int|
        0 <= i < keys.len() ==> is_least_key(#[trigger] states[i], keys[i]) && states[i + 1]
            == states[i].remove(keys[i])
}

/// Along a run of `pop_first` calls the maps only lose keys.
proof fn lemma_run_shrinks<V>(states: Seq<Map<u64, V>>, keys: Seq<u64>, i: int, j: int)
    requires
        pops_first_run(states, keys),
        0 <= i <= j < states.len(),
    ensures
        forall|k: u64| states[j].contains_key(k) ==> states[i].contains_key(k),
    decreases j - i,
{
    if i < j {
        lemma_run_shrinks(states, keys, i, j - 1);
        assert(is_least_key(states[j - 1], keys[j - 1]));
    }
}

/// Draining a map with repeated `pop_first` hands its keys out in strictly
/// increasing order, each key of the first map exactly once: a key of the
/// first map was handed out or is still in the last one.
pub proof fn law_pop_first_drains_in_order<V>(states: Seq<Map<u64, V>>, keys: Seq<u64>)
    requires
        pops_first_run(states, keys),
    ensures
        forall|i: int, j: int| 0 <= i < j < keys.len() ==> #[trigger] keys[i] < #[trigger] keys[j],
        forall|k: u64|
            states[0].contains_key(k) <==> (keys.contains(k) || states.last().contains_key(k)),
    decreases keys.len(),
{
    assert forall|i: int, j: int| 0 <= i < j < keys.len() implies #[trigger] keys[i]
        < #[trigger] keys[j] by {
        assert(is_least_key(states[i], keys[i]));
        assert(is_least_key(states[j], keys[j]));
        lemma_run_shrinks(states, keys, i + 1, j);
        assert(states[j].contains_key(keys[j]));
        assert(states[i + 1].contains_key(keys[j]));
    }
    if keys.len() > 0 {
        let rest_states = states.subrange(1, states.len() as int);
        let rest_keys = keys.subrange(1, keys.len() as int);
        assert forall|i: int| 0 <= i < rest_keys.len() implies is_least_key(
            #[trigger] rest_states[i],
            rest_keys[i],
        ) && rest_states[i + 1] == rest_states[i].remove(rest_keys[i]) by {
            assert(rest_states[i] == states[i + 1]);
            assert(rest_keys[i] == keys[i + 1]);
            assert(is_least_key(states[i + 1], keys[i + 1]));
        }
        law_pop_first_drains_in_order(rest_states, rest_keys);
        assert(is_least_key(states[0], keys[0]));
        assert(rest_states.last() == states.last());
        assert forall|k: u64| states[0].contains_key(k) <==> (keys.contains(k)
            || states.last().contains_key(k)) by {
            if keys.contains(k) && k != keys[0] {
                let i = choose|i: int| 0 <= i < keys.len() && keys[i] == k;
                assert(rest_keys[i - 1] == k);
            }
            if rest_keys.contains(k) {
                let i = choose|i: int| 0 <= i < rest_keys.len() && rest_keys[i] == k;
                assert(keys[i + 1] == k);
            }
            if k == keys[0] {
                assert(keys[0] == k);
            }
        }
    }
}

} // verus!
