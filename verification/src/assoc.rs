//! Ghost-level reasoning about sequences of key-value pairs with distinct
//! keys, used to model the per-entity maps of the version index.

use vstd::prelude::*;

verus! {

/// Lookup of the first pair carrying `key`.
pub open spec fn assoc_get<T>(pairs: Seq<(u128, T)>, key: u128) -> Option<T>
    decreases pairs.len(),
{
    if pairs.len() == 0 {
        None
    } else if pairs[0].0 == key {
        Some(pairs[0].1)
    } else {
        assoc_get(pairs.drop_first(), key)
    }
}

/// All keys are pairwise distinct.
pub open spec fn distinct_keys<T>(pairs: Seq<(u128, T)>) -> bool {
    forall|i: int, j: int|
        0 <= i < j < pairs.len() ==> (#[trigger] pairs[i]).0 != (#[trigger] pairs[j]).0
}

/// Under distinct keys, the pair at index `i` is what lookup of its key finds.
pub proof fn lemma_assoc_get_index<T>(pairs: Seq<(u128, T)>, i: int)
    requires
        distinct_keys(pairs),
        0 <= i < pairs.len(),
    ensures
        assoc_get(pairs, pairs[i].0) == Some(pairs[i].1),
    decreases pairs.len(),
{
    if i == 0 {
    } else {
        assert(pairs[0].0 != pairs[i].0);
        assert(pairs.drop_first()[i - 1] == pairs[i]);
        lemma_assoc_get_index(pairs.drop_first(), i - 1);
    }
}

/// A key that no pair carries is not found.
pub proof fn lemma_assoc_get_absent<T>(pairs: Seq<(u128, T)>, key: u128)
    requires
        forall|i: int| 0 <= i < pairs.len() ==> (#[trigger] pairs[i]).0 != key,
    ensures
        assoc_get(pairs, key) == None::<T>,
    decreases pairs.len(),
{
    if pairs.len() > 0 {
        lemma_assoc_get_absent(pairs.drop_first(), key);
    }
}

/// Replacing the value at index `i` changes lookup only for that pair's key.
pub proof fn lemma_assoc_update<T>(pairs: Seq<(u128, T)>, i: int, value: T)
    requires
        distinct_keys(pairs),
        0 <= i < pairs.len(),
    ensures
        distinct_keys(pairs.update(i, (pairs[i].0, value))),
        assoc_get(pairs.update(i, (pairs[i].0, value)), pairs[i].0) == Some(value),
        forall|key: u128|
            key != pairs[i].0 ==> #[trigger] assoc_get(pairs.update(i, (pairs[i].0, value)), key)
                == assoc_get(pairs, key),
    decreases pairs.len(),
{
    let updated = pairs.update(i, (pairs[i].0, value));
    assert forall|a: int, b: int| 0 <= a < b < updated.len() implies (#[trigger] updated[a]).0 != (
    #[trigger] updated[b]).0 by {
        assert(pairs[a].0 != pairs[b].0);
    }
    if i == 0 {
        assert(updated.drop_first() =~= pairs.drop_first());
        assert forall|key: u128| key != pairs[i].0 implies #[trigger] assoc_get(updated, key)
            == assoc_get(pairs, key) by {
            assert(assoc_get(updated, key) == assoc_get(updated.drop_first(), key));
            assert(assoc_get(pairs, key) == assoc_get(pairs.drop_first(), key));
        }
    } else {
        assert(updated[0] == pairs[0]);
        let tail_updated = pairs.drop_first().update(i - 1, (pairs[i].0, value));
        assert(updated.drop_first() =~= tail_updated);
        assert(pairs.drop_first()[i - 1] == pairs[i]);
        lemma_assoc_update(pairs.drop_first(), i - 1, value);
        assert(assoc_get(tail_updated, pairs[i].0) == Some(value));
        assert(pairs[0].0 != pairs[i].0);
        assert(assoc_get(updated, pairs[i].0) == assoc_get(updated.drop_first(), pairs[i].0));
        assert forall|key: u128| key != pairs[i].0 implies #[trigger] assoc_get(updated, key)
            == assoc_get(pairs, key) by {
            if pairs[0].0 == key {
                assert(assoc_get(updated, key) == Some(updated[0].1));
                assert(assoc_get(pairs, key) == Some(pairs[0].1));
            } else {
                assert(assoc_get(updated, key) == assoc_get(updated.drop_first(), key));
                assert(assoc_get(tail_updated, key) == assoc_get(pairs.drop_first(), key));
                assert(assoc_get(pairs, key) == assoc_get(pairs.drop_first(), key));
            }
        }
    }
}

/// Appending a pair with a fresh key adds exactly that binding.
pub proof fn lemma_assoc_push<T>(pairs: Seq<(u128, T)>, key: u128, value: T)
    requires
        distinct_keys(pairs),
        forall|i: int| 0 <= i < pairs.len() ==> (#[trigger] pairs[i]).0 != key,
    ensures
        distinct_keys(pairs.push((key, value))),
        assoc_get(pairs.push((key, value)), key) == Some(value),
        forall|k: u128|
            k != key ==> #[trigger] assoc_get(pairs.push((key, value)), k) == assoc_get(pairs, k),
    decreases pairs.len(),
{
    let pushed = pairs.push((key, value));
    assert forall|a: int, b: int| 0 <= a < b < pushed.len() implies (#[trigger] pushed[a]).0 != (
    #[trigger] pushed[b]).0 by {
        if b < pairs.len() {
            assert(pairs[a].0 != pairs[b].0);
        } else {
            assert(pushed[a] == pairs[a]);
        }
    }
    if pairs.len() == 0 {
        assert(pushed.drop_first() =~= Seq::<(u128, T)>::empty());
        assert forall|k: u128| k != key implies #[trigger] assoc_get(pushed, k) == assoc_get(
            pairs,
            k,
        ) by {
            assert(assoc_get(pushed, k) == assoc_get(pushed.drop_first(), k));
        }
    } else {
        let tail_pushed = pairs.drop_first().push((key, value));
        assert(pushed.drop_first() =~= tail_pushed);
        lemma_assoc_push(pairs.drop_first(), key, value);
        assert(pushed[0] == pairs[0]);
        if pairs[0].0 == key {
            assert(false);
        }
        assert(assoc_get(pushed, key) == assoc_get(pushed.drop_first(), key));
        assert forall|k: u128| k != key implies #[trigger] assoc_get(pushed, k) == assoc_get(
            pairs,
            k,
        ) by {
            if pairs[0].0 == k {
                assert(assoc_get(pushed, k) == Some(pushed[0].1));
                assert(assoc_get(pairs, k) == Some(pairs[0].1));
            } else {
                assert(assoc_get(pushed, k) == assoc_get(pushed.drop_first(), k));
                assert(assoc_get(tail_pushed, k) == assoc_get(pairs.drop_first(), k));
                assert(assoc_get(pairs, k) == assoc_get(pairs.drop_first(), k));
            }
        }
    }
}

/// Removing the pair at index `i` drops exactly that binding.
pub proof fn lemma_assoc_remove<T>(pairs: Seq<(u128, T)>, i: int)
    requires
        distinct_keys(pairs),
        0 <= i < pairs.len(),
    ensures
        distinct_keys(pairs.remove(i)),
        assoc_get(pairs.remove(i), pairs[i].0) == None::<T>,
        forall|key: u128|
            key != pairs[i].0 ==> #[trigger] assoc_get(pairs.remove(i), key) == assoc_get(
                pairs,
                key,
            ),
    decreases pairs.len(),
{
    let removed = pairs.remove(i);
    assert forall|a: int, b: int| 0 <= a < b < removed.len() implies (#[trigger] removed[a]).0 != (
    #[trigger] removed[b]).0 by {
        let a2: int = if a < i { a } else { a + 1 };
        let b2: int = if b < i { b } else { b + 1 };
        assert(pairs[a2].0 != pairs[b2].0);
    }
    assert forall|j: int| 0 <= j < removed.len() implies (#[trigger] removed[j]).0 != pairs[i].0 by {
        let j2: int = if j < i { j } else { j + 1 };
        assert(removed[j] == pairs[j2]);
    }
    lemma_assoc_get_absent(removed, pairs[i].0);
    assert forall|key: u128| key != pairs[i].0 implies #[trigger] assoc_get(removed, key)
        == assoc_get(pairs, key) by {
        if i == 0 {
            assert(removed =~= pairs.drop_first());
            assert(assoc_get(pairs, key) == assoc_get(pairs.drop_first(), key));
        } else {
            assert(removed[0] == pairs[0]);
            let tail_removed = pairs.drop_first().remove(i - 1);
            assert(removed.drop_first() =~= tail_removed);
            assert(pairs.drop_first()[i - 1] == pairs[i]);
            lemma_assoc_remove(pairs.drop_first(), i - 1);
            if pairs[0].0 == key {
                assert(assoc_get(removed, key) == Some(removed[0].1));
                assert(assoc_get(pairs, key) == Some(pairs[0].1));
            } else {
                assert(assoc_get(removed, key) == assoc_get(removed.drop_first(), key));
                assert(assoc_get(tail_removed, key) == assoc_get(pairs.drop_first(), key));
                assert(assoc_get(pairs, key) == assoc_get(pairs.drop_first(), key));
            }
        }
    }
}

/// A successful lookup names some pair of the sequence.
pub proof fn lemma_assoc_get_some_index<T>(pairs: Seq<(u128, T)>, key: u128)
    requires
        assoc_get(pairs, key) is Some,
    ensures
        exists|i: int|
            0 <= i < pairs.len() && (#[trigger] pairs[i]).0 == key && pairs[i].1 == assoc_get(
                pairs,
                key,
            ).unwrap(),
    decreases pairs.len(),
{
    if pairs[0].0 == key {
        assert(pairs[0].0 == key && pairs[0].1 == assoc_get(pairs, key).unwrap());
    } else {
        lemma_assoc_get_some_index(pairs.drop_first(), key);
        let i = choose|i: int|
            0 <= i < pairs.drop_first().len() && (#[trigger] pairs.drop_first()[i]).0 == key
                && pairs.drop_first()[i].1 == assoc_get(pairs.drop_first(), key).unwrap();
        assert(pairs[i + 1].0 == key && pairs[i + 1].1 == assoc_get(pairs, key).unwrap());
    }
}

} // verus!
