//! Ordered association lists: sequences of key/value pairs, searched by key.

use vstd::prelude::*;

verus! {

/// `i` is the position of the first pair under `key`.
pub open spec fn is_first<V>(pairs: Seq<(Seq<char>, V)>, key: Seq<char>, i: int) -> bool {
    &&& 0 <= i < pairs.len()
    &&& pairs[i].0 == key
    &&& forall|j: int| 0 <= j < i ==> (#[trigger] pairs[j]).0 != key
}

/// No pair stands under `key`.
pub open spec fn is_absent<V>(pairs: Seq<(Seq<char>, V)>, key: Seq<char>) -> bool {
    forall|j: int| 0 <= j < pairs.len() ==> (#[trigger] pairs[j]).0 != key
}

/// Position of the first pair under `key`, if there is one.
pub open spec fn first_index<V>(pairs: Seq<(Seq<char>, V)>, key: Seq<char>) -> Option<int> {
    if exists|i: int| is_first(pairs, key, i) {
        Some(choose|i: int| is_first(pairs, key, i))
    } else {
        None
    }
}

/// Value of the first pair under `key`, if there is one.
pub open spec fn lookup<V>(pairs: Seq<(Seq<char>, V)>, key: Seq<char>) -> Option<V> {
    match first_index(pairs, key) {
        Some(i) => Some(pairs[i].1),
        None => None,
    }
}

/// No key occurs twice.
pub open spec fn distinct_keys<V>(pairs: Seq<(Seq<char>, V)>) -> bool {
    forall|i: int, j: int|
        0 <= i < j < pairs.len() ==> (#[trigger] pairs[i]).0 != (#[trigger] pairs[j]).0
}

/// A position that `is_first` accepts is the one `first_index` gives.
pub proof fn lemma_first_index_found<V>(pairs: Seq<(Seq<char>, V)>, key: Seq<char>, i: int)
    requires
        is_first(pairs, key, i),
    ensures
        first_index(pairs, key) == Some(i),
        lookup(pairs, key) == Some(pairs[i].1),
{
    let c = choose|c: int| is_first(pairs, key, c);
    assert(is_first(pairs, key, c));
    if c < i {
        assert(pairs[c].0 != key);
    }
    if i < c {
        assert(pairs[i].0 != key);
    }
}

/// Where no pair stands under `key`, `first_index` gives nothing.
pub proof fn lemma_first_index_absent<V>(pairs: Seq<(Seq<char>, V)>, key: Seq<char>)
    requires
        is_absent(pairs, key),
    ensures
        first_index(pairs, key) is None,
        lookup(pairs, key) is None,
{
    if exists|i: int| is_first(pairs, key, i) {
        let c = choose|c: int| is_first(pairs, key, c);
        assert(pairs[c].0 != key);
    }
}

/// What `first_index` gives is either the first position under `key` or the
/// news that there is none.
pub proof fn lemma_first_index<V>(pairs: Seq<(Seq<char>, V)>, key: Seq<char>)
    ensures
        match first_index(pairs, key) {
            Some(i) => is_first(pairs, key, i),
            None => is_absent(pairs, key),
        },
{
    if first_index(pairs, key) is None {
        assert forall|j: int| 0 <= j < pairs.len() implies (#[trigger] pairs[j]).0 != key by {
            if pairs[j].0 == key {
                lemma_some_first(pairs, key, j);
            }
        }
    }
}

/// A pair under `key` at `at` means that some position is the first one.
proof fn lemma_some_first<V>(pairs: Seq<(Seq<char>, V)>, key: Seq<char>, at: int)
    requires
        0 <= at < pairs.len(),
        pairs[at].0 == key,
    ensures
        exists|i: int| is_first(pairs, key, i),
    decreases at,
{
    if exists|j: int| 0 <= j < at && (#[trigger] pairs[j]).0 == key {
        let j = choose|j: int| 0 <= j < at && (#[trigger] pairs[j]).0 == key;
        lemma_some_first(pairs, key, j);
    } else {
        assert(is_first(pairs, key, at));
    }
}

/// The keys of the pairs, in order.
pub open spec fn keys_of<V>(pairs: Seq<(Seq<char>, V)>) -> Seq<Seq<char>> {
    Seq::new(pairs.len(), |i: int| pairs[i].0)
}

/// The pairs whose key is none of `keys`, in their order.
pub open spec fn without<V>(pairs: Seq<(Seq<char>, V)>, keys: Seq<Seq<char>>) -> Seq<
    (Seq<char>, V),
>
    decreases pairs.len(),
{
    if pairs.len() == 0 {
        pairs
    } else if keys.contains(pairs.last().0) {
        without(pairs.drop_last(), keys)
    } else {
        without(pairs.drop_last(), keys).push(pairs.last())
    }
}

/// Taking out a pair whose key is one of `keys` does not change what is
/// left without those keys.
pub proof fn lemma_without_remove<V>(pairs: Seq<(Seq<char>, V)>, at: int, keys: Seq<Seq<char>>)
    requires
        0 <= at < pairs.len(),
        keys.contains(pairs[at].0),
    ensures
        without(pairs.remove(at), keys) == without(pairs, keys),
    decreases pairs.len(),
{
    if at == pairs.len() - 1 {
        assert(pairs.remove(at) =~= pairs.drop_last());
    } else {
        assert(pairs.remove(at).last() == pairs.last());
        assert(pairs.remove(at).drop_last() =~= pairs.drop_last().remove(at));
        lemma_without_remove(pairs.drop_last(), at, keys);
    }
}

/// Two lists of keys that tell the same of every pair leave the same pairs.
pub proof fn lemma_without_agrees<V>(
    pairs: Seq<(Seq<char>, V)>,
    keys: Seq<Seq<char>>,
    others: Seq<Seq<char>>,
)
    requires
        forall|i: int|
            0 <= i < pairs.len() ==> (keys.contains((#[trigger] pairs[i]).0) <==> others.contains(
                pairs[i].0,
            )),
    ensures
        without(pairs, keys) == without(pairs, others),
    decreases pairs.len(),
{
    if pairs.len() > 0 {
        assert(keys.contains(pairs[pairs.len() - 1].0) <==> others.contains(
            pairs[pairs.len() - 1].0,
        ));
        assert forall|i: int| 0 <= i < pairs.drop_last().len() implies (keys.contains(
            (#[trigger] pairs.drop_last()[i]).0,
        ) <==> others.contains(pairs.drop_last()[i].0)) by {
            assert(keys.contains(pairs[i].0) <==> others.contains(pairs[i].0));
        }
        lemma_without_agrees(pairs.drop_last(), keys, others);
    }
}

/// What is left without `keys` is made of pairs of the whole, none under
/// one of `keys`, and every such pair is left; no key occurs twice in it
/// unless it did in the whole.
pub proof fn lemma_without<V>(pairs: Seq<(Seq<char>, V)>, keys: Seq<Seq<char>>)
    ensures
        without(pairs, keys).len() <= pairs.len(),
        forall|i: int|
            0 <= i < without(pairs, keys).len() ==> {
                &&& pairs.contains(#[trigger] without(pairs, keys)[i])
                &&& !keys.contains(without(pairs, keys)[i].0)
            },
        forall|i: int|
            0 <= i < pairs.len() && !keys.contains((#[trigger] pairs[i]).0) ==> without(
                pairs,
                keys,
            ).contains(pairs[i]),
        distinct_keys(pairs) ==> distinct_keys(without(pairs, keys)),
        (forall|i: int| 0 <= i < pairs.len() ==> !keys.contains((#[trigger] pairs[i]).0))
            ==> without(pairs, keys) == pairs,
    decreases pairs.len(),
{
    let left = without(pairs, keys);
    if pairs.len() > 0 {
        let front = pairs.drop_last();
        let last = pairs.last();
        let before = without(front, keys);
        lemma_without(front, keys);
        assert forall|i: int| 0 <= i < left.len() implies {
            &&& pairs.contains(#[trigger] left[i])
            &&& !keys.contains(left[i].0)
        } by {
            if i < before.len() {
                assert(left[i] == before[i]);
                assert(front.contains(before[i]));
                let at = choose|at: int| 0 <= at < front.len() && front[at] == before[i];
                assert(pairs[at] == left[i]);
            } else {
                assert(pairs[pairs.len() - 1] == left[i]);
            }
        }
        assert forall|i: int|
            0 <= i < pairs.len() && !keys.contains((#[trigger] pairs[i]).0) implies left.contains(
            pairs[i],
        ) by {
            if i < front.len() {
                assert(front[i] == pairs[i]);
                assert(before.contains(front[i]));
                let at = choose|at: int| 0 <= at < before.len() && before[at] == front[i];
                assert(left[at] == pairs[i]);
            } else {
                assert(left[left.len() - 1] == pairs[i]);
            }
        }
        if distinct_keys(pairs) {
            assert(distinct_keys(front)) by {
                assert forall|i: int, j: int| 0 <= i < j < front.len() implies (
                #[trigger] front[i]).0 != (#[trigger] front[j]).0 by {
                    assert(pairs[i].0 != pairs[j].0);
                }
            }
            assert forall|i: int, j: int| 0 <= i < j < left.len() implies (#[trigger] left[i]).0
                != (#[trigger] left[j]).0 by {
                if j < before.len() {
                    assert(before[i].0 != before[j].0);
                } else {
                    assert(left[i] == before[i]);
                    assert(front.contains(before[i]));
                    let at = choose|at: int| 0 <= at < front.len() && front[at] == before[i];
                    assert(pairs[at].0 != pairs[pairs.len() - 1].0);
                }
            }
        }
        if forall|i: int| 0 <= i < pairs.len() ==> !keys.contains((#[trigger] pairs[i]).0) {
            assert forall|i: int| 0 <= i < front.len() implies !keys.contains(
                (#[trigger] front[i]).0,
            ) by {
                assert(!keys.contains(pairs[i].0));
            }
            assert(!keys.contains(pairs[pairs.len() - 1].0));
            assert(left =~= pairs);
        }
    }
}

/// Taking a pair out leaves the keys distinct.
pub proof fn lemma_remove_keeps_distinct<V>(pairs: Seq<(Seq<char>, V)>, at: int)
    requires
        0 <= at < pairs.len(),
        distinct_keys(pairs),
    ensures
        distinct_keys(pairs.remove(at)),
        is_absent(pairs.remove(at), pairs[at].0),
{
    let fewer = pairs.remove(at);
    assert forall|i: int, j: int| 0 <= i < j < fewer.len() implies (#[trigger] fewer[i]).0 != (
    #[trigger] fewer[j]).0 by {
        let a = if i < at {
            i
        } else {
            i + 1
        };
        let b = if j < at {
            j
        } else {
            j + 1
        };
        assert(pairs[a].0 != pairs[b].0);
    }
    assert forall|j: int| 0 <= j < fewer.len() implies (#[trigger] fewer[j]).0 != pairs[at].0 by {
        let b = if j < at {
            j
        } else {
            j + 1
        };
        if b < at {
            assert(pairs[b].0 != pairs[at].0);
        } else {
            assert(pairs[at].0 != pairs[b].0);
        }
    }
}

/// Taking out an entry under another key does not change what stands under
/// `key`.
pub proof fn lemma_lookup_after_remove<V>(pairs: Seq<(Seq<char>, V)>, at: int, key: Seq<char>)
    requires
        0 <= at < pairs.len(),
        pairs[at].0 != key,
    ensures
        lookup(pairs.remove(at), key) == lookup(pairs, key),
{
    let fewer = pairs.remove(at);
    lemma_first_index(pairs, key);
    match first_index(pairs, key) {
        Some(i) => {
            let moved = if i < at {
                i
            } else {
                i - 1
            };
            assert(is_first(fewer, key, moved)) by {
                assert forall|j: int| 0 <= j < moved implies (#[trigger] fewer[j]).0 != key by {
                    if j < at {
                        assert(pairs[j].0 != key);
                    } else {
                        assert(pairs[j + 1].0 != key);
                    }
                }
            }
            lemma_first_index_found(fewer, key, moved);
        },
        None => {
            assert(is_absent(fewer, key)) by {
                assert forall|j: int| 0 <= j < fewer.len() implies (#[trigger] fewer[j]).0
                    != key by {
                    if j < at {
                        assert(pairs[j].0 != key);
                    } else {
                        assert(pairs[j + 1].0 != key);
                    }
                }
            }
            lemma_first_index_absent(fewer, key);
        },
    }
}

} // verus!
