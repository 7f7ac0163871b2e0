//! What holds of the batches and of the replies to them, in whatever order
//! the replies come.

use crate::assoc::{distinct_keys, is_absent, is_first, lemma_first_index_found, lookup};
use crate::batch::{batch, batches_of, failure_marker, lemma_batches_partition, outcome, BATCH_SIZE};
use crate::phrases::{
    knows, lemma_known_stays_known, lemma_stored, lemma_stored_keeps_phrases, lemma_unresolved,
    resolved, stored, unresolved, Table,
};
use crate::driver::{after_replies, has_reply, DriverView};
use vstd::prelude::*;

verus! {

/// No phrase goes out twice: the phrases that a phrase map without repeated
/// phrases leaves unresolved are all different, so each stands in one batch
/// only, and once.
pub proof fn lemma_no_phrase_is_sent_twice(table: Table)
    requires
        distinct_keys(table),
    ensures
        unresolved(table).no_duplicates(),
        forall|k: int, o: int, l: int, u: int|
            #![trigger batches_of(unresolved(table))[k][o], batches_of(unresolved(table))[l][u]]
            {
                &&& 0 <= k < batches_of(unresolved(table)).len()
                &&& 0 <= o < batches_of(unresolved(table))[k].len()
                &&& 0 <= l < batches_of(unresolved(table)).len()
                &&& 0 <= u < batches_of(unresolved(table))[l].len()
                &&& batches_of(unresolved(table))[k][o] == batches_of(unresolved(table))[l][u]
            } ==> k == l && o == u,
{
    let phrases = unresolved(table);
    lemma_unresolved(table);
    lemma_batches_partition(phrases);
    let all = batches_of(phrases);
    assert forall|k: int, o: int, l: int, u: int|
        #![trigger all[k][o], all[l][u]]
        {
            &&& 0 <= k < all.len()
            &&& 0 <= o < all[k].len()
            &&& 0 <= l < all.len()
            &&& 0 <= u < all[l].len()
            &&& all[k][o] == all[l][u]
        } implies k == l && o == u by {
        assert(all[k][o] == phrases[k * BATCH_SIZE + o]);
        assert(all[l][u] == phrases[l * BATCH_SIZE + u]);
        assert(all[k] == batch(phrases, k));
        assert(all[l] == batch(phrases, l));
    }
}

/// What a reply does to the phrase map: each phrase of its batch gets what
/// the reply brought for it, or the failure marker where the request failed,
/// and nothing else changes. No phrase is added, lost or moved.
pub proof fn lemma_reply_reaches_its_batch_only(
    table: Table,
    phrases: Seq<Seq<char>>,
    brought: Option<Seq<Seq<char>>>,
)
    requires
        phrases.no_duplicates(),
    ensures
        forall|i: int|
            0 <= i < phrases.len() ==> lookup(
                stored(table, outcome(phrases, brought)),
                #[trigger] phrases[i],
            ) == Some(
                match brought {
                    Some(translations) => translations[i],
                    None => failure_marker(),
                },
            ),
        forall|phrase: Seq<char>|
            !phrases.contains(phrase) ==> #[trigger] lookup(
                stored(table, outcome(phrases, brought)),
                phrase,
            ) == lookup(table, phrase),
        distinct_keys(table) ==> distinct_keys(stored(table, outcome(phrases, brought))),
        (forall|i: int| 0 <= i < phrases.len() ==> knows(table, #[trigger] phrases[i])) ==> {
            &&& stored(table, outcome(phrases, brought)).len() == table.len()
            &&& forall|i: int|
                0 <= i < table.len() ==> (#[trigger] stored(table, outcome(phrases, brought))[i]).0
                    == table[i].0
        },
{
    let pairs = outcome(phrases, brought);
    let after = stored(table, pairs);
    assert(distinct_keys(pairs)) by {
        assert forall|i: int, j: int| 0 <= i < j < pairs.len() implies (#[trigger] pairs[i]).0 != (
        #[trigger] pairs[j]).0 by {
            assert(phrases[i] != phrases[j]);
        }
    }
    lemma_stored(table, pairs);
    lemma_stored_keeps_phrases(table, pairs);
    assert forall|i: int| 0 <= i < phrases.len() implies lookup(after, #[trigger] phrases[i])
        == Some(
        match brought {
            Some(translations) => translations[i],
            None => failure_marker(),
        },
    ) by {
        assert(pairs[i].0 == phrases[i]);
    }
    assert forall|phrase: Seq<char>| !phrases.contains(phrase) implies #[trigger] lookup(
        after,
        phrase,
    ) == lookup(table, phrase) by {
        assert(is_absent(pairs, phrase)) by {
            assert forall|j: int| 0 <= j < pairs.len() implies (#[trigger] pairs[j]).0
                != phrase by {
                assert(phrases[j] == pairs[j].0);
            }
        }
    }
    if forall|i: int| 0 <= i < phrases.len() ==> knows(table, #[trigger] phrases[i]) {
        assert forall|i: int| 0 <= i < pairs.len() implies knows(
            table,
            (#[trigger] pairs[i]).0,
        ) by {
            assert(knows(table, phrases[i]));
        }
    }
}

/// Replies may be stored in any order: two runs of pairs that share no
/// phrase, stored into a table that knows all their phrases, leave the same
/// table whichever is stored first.
pub proof fn lemma_store_order_is_free(table: Table, first: Table, second: Table)
    requires
        distinct_keys(table),
        distinct_keys(first),
        distinct_keys(second),
        forall|i: int, j: int|
            0 <= i < first.len() && 0 <= j < second.len() ==> (#[trigger] first[i]).0 != (
            #[trigger] second[j]).0,
        forall|i: int| 0 <= i < first.len() ==> knows(table, (#[trigger] first[i]).0),
        forall|j: int| 0 <= j < second.len() ==> knows(table, (#[trigger] second[j]).0),
    ensures
        stored(stored(table, first), second) == stored(stored(table, second), first),
{
    let one = stored(table, first);
    let two = stored(table, second);
    let left = stored(one, second);
    let right = stored(two, first);
    lemma_stored_keeps_phrases(table, first);
    lemma_stored_keeps_phrases(table, second);
    lemma_stored(table, first);
    lemma_stored(table, second);
    assert forall|j: int| 0 <= j < second.len() implies knows(one, (#[trigger] second[j]).0) by {
        assert(knows(table, second[j].0));
    }
    assert forall|i: int| 0 <= i < first.len() implies knows(two, (#[trigger] first[i]).0) by {
        assert(knows(table, first[i].0));
    }
    lemma_stored_keeps_phrases(one, second);
    lemma_stored_keeps_phrases(two, first);
    lemma_stored(one, second);
    lemma_stored(two, first);
    assert forall|at: int| 0 <= at < table.len() implies #[trigger] left[at] == right[at] by {
        let key = table[at].0;
        assert(one[at].0 == key && two[at].0 == key);
        assert(left[at].0 == key && right[at].0 == key);
        assert(is_first(left, key, at)) by {
            assert forall|j: int| 0 <= j < at implies (#[trigger] left[j]).0 != key by {
                assert(left[j].0 != left[at].0);
            }
        }
        assert(is_first(right, key, at)) by {
            assert forall|j: int| 0 <= j < at implies (#[trigger] right[j]).0 != key by {
                assert(right[j].0 != right[at].0);
            }
        }
        lemma_first_index_found(left, key, at);
        lemma_first_index_found(right, key, at);
        if !is_absent(second, key) {
            let j = choose|j: int| 0 <= j < second.len() && (#[trigger] second[j]).0 == key;
            assert(is_absent(first, key)) by {
                assert forall|i: int| 0 <= i < first.len() implies (#[trigger] first[i]).0
                    != key by {
                    assert(first[i].0 != second[j].0);
                }
            }
            assert(lookup(left, second[j].0) == Some(second[j].1));
            assert(lookup(two, second[j].0) == Some(second[j].1));
            assert(lookup(right, key) == lookup(two, key));
        } else if !is_absent(first, key) {
            let i = choose|i: int| 0 <= i < first.len() && (#[trigger] first[i]).0 == key;
            assert(lookup(right, first[i].0) == Some(first[i].1));
            assert(lookup(one, first[i].0) == Some(first[i].1));
            assert(lookup(left, key) == lookup(one, key));
        } else {
            assert(lookup(left, key) == lookup(one, key));
            assert(lookup(one, key) == lookup(table, key));
            assert(lookup(right, key) == lookup(two, key));
            assert(lookup(two, key) == lookup(table, key));
        }
    }
    assert(left =~= right);
}

/// The phrases of one batch are all different and all unresolved.
pub proof fn lemma_batch_holds_unresolved_phrases(table: Table, k: int)
    requires
        distinct_keys(table),
        0 <= k < batches_of(unresolved(table)).len(),
    ensures
        batches_of(unresolved(table))[k].no_duplicates(),
        forall|o: int|
            0 <= o < batches_of(unresolved(table))[k].len() ==> {
                &&& unresolved(table).contains(#[trigger] batches_of(unresolved(table))[k][o])
                &&& knows(table, batches_of(unresolved(table))[k][o])
            },
{
    let phrases = unresolved(table);
    let all = batches_of(phrases);
    lemma_no_phrase_is_sent_twice(table);
    lemma_batches_partition(phrases);
    lemma_unresolved(table);
    assert forall|o: int| 0 <= o < all[k].len() implies {
        &&& phrases.contains(#[trigger] all[k][o])
        &&& knows(table, all[k][o])
    } by {
        let p = all[k][o];
        assert(phrases[k * BATCH_SIZE + o] == p);
        assert(phrases.contains(p));
        let i = choose|i: int| 0 <= i < table.len() && #[trigger] table[i] == (
            p,
            Seq::<char>::empty(),
        );
        assert(is_first(table, p, i)) by {
            assert forall|j: int| 0 <= j < i implies (#[trigger] table[j]).0 != p by {
                assert(table[j].0 != table[i].0);
            }
        }
        lemma_first_index_found(table, p, i);
    }
    assert forall|o: int, u: int| 0 <= o < all[k].len() && 0 <= u < all[k].len() && o
        != u implies all[k][o] != all[k][u] by {
        if all[k][o] == all[k][u] {
            assert(o == u);
        }
    }
}

/// However the replies are ordered, each reaches its own batch and nothing
/// else: after replies to different batches were stored, in any order, every
/// phrase of a batch that was answered has what its reply brought for it, or
/// the failure marker where its request failed; every other phrase has what
/// it had. No phrase was added, lost or moved.
pub proof fn lemma_replies_settle_their_batches(
    table: Table,
    arrivals: Seq<(int, Option<Seq<Seq<char>>>)>,
)
    requires
        distinct_keys(table),
        forall|a: int|
            0 <= a < arrivals.len() ==> 0 <= (#[trigger] arrivals[a]).0 < batches_of(
                unresolved(table),
            ).len(),
        forall|a: int, b: int|
            0 <= a < b < arrivals.len() ==> (#[trigger] arrivals[a]).0 != (
            #[trigger] arrivals[b]).0,
    ensures
        ({
            let batches = batches_of(unresolved(table));
            let end = after_replies(table, batches, arrivals);
            &&& end.len() == table.len()
            &&& distinct_keys(end)
            &&& forall|i: int| 0 <= i < table.len() ==> (#[trigger] end[i]).0 == table[i].0
            &&& forall|a: int, o: int|
                0 <= a < arrivals.len() && 0 <= o < batches[arrivals[a].0].len() ==> lookup(
                    end,
                    #[trigger] batches[arrivals[a].0][o],
                ) == Some(
                    match arrivals[a].1 {
                        Some(translations) => translations[o],
                        None => failure_marker(),
                    },
                )
            &&& forall|phrase: Seq<char>|
                (forall|a: int|
                    0 <= a < arrivals.len() ==> !batches[(#[trigger] arrivals[a]).0].contains(
                        phrase,
                    )) ==> #[trigger] lookup(end, phrase) == lookup(table, phrase)
        }),
    decreases arrivals.len(),
{
    let batches = batches_of(unresolved(table));
    let end = after_replies(table, batches, arrivals);
    if arrivals.len() > 0 {
        let earlier = arrivals.drop_last();
        let (k, brought) = arrivals.last();
        let before = after_replies(table, batches, earlier);
        let phrases = batches[k];
        assert(arrivals[arrivals.len() - 1].0 == k);
        assert forall|a: int| 0 <= a < earlier.len() implies 0 <= (#[trigger] earlier[a]).0
            < batches.len() by {
            assert(earlier[a] == arrivals[a]);
        }
        assert forall|a: int, b: int| 0 <= a < b < earlier.len() implies (#[trigger] earlier[a]).0
            != (#[trigger] earlier[b]).0 by {
            assert(earlier[a] == arrivals[a] && earlier[b] == arrivals[b]);
        }
        lemma_replies_settle_their_batches(table, earlier);
        lemma_batch_holds_unresolved_phrases(table, k);
        assert forall|o: int| 0 <= o < phrases.len() implies knows(
            before,
            #[trigger] phrases[o],
        ) by {
            lemma_known_stays_known(table, before, phrases[o]);
        }
        lemma_reply_reaches_its_batch_only(before, phrases, brought);
        lemma_no_phrase_is_sent_twice(table);
        assert forall|i: int| 0 <= i < table.len() implies (#[trigger] end[i]).0 == table[i].0 by {
            assert(before[i].0 == table[i].0);
        }
        assert forall|a: int, o: int|
            0 <= a < arrivals.len() && 0 <= o < batches[arrivals[a].0].len() implies lookup(
            end,
            #[trigger] batches[arrivals[a].0][o],
        ) == Some(
            match arrivals[a].1 {
                Some(translations) => translations[o],
                None => failure_marker(),
            },
        ) by {
            if a < earlier.len() {
                assert(earlier[a] == arrivals[a]);
                let p = batches[arrivals[a].0][o];
                assert(arrivals[a].0 != arrivals[arrivals.len() - 1].0);
                if phrases.contains(p) {
                    let u = choose|u: int| 0 <= u < phrases.len() && phrases[u] == p;
                    assert(batches[k][u] == batches[arrivals[a].0][o]);
                }
                assert(lookup(end, p) == lookup(before, p));
            }
        }
        assert forall|phrase: Seq<char>|
            (forall|a: int|
                0 <= a < arrivals.len() ==> !batches[(#[trigger] arrivals[a]).0].contains(
                    phrase,
                )) implies #[trigger] lookup(end, phrase) == lookup(table, phrase) by {
            assert(!batches[arrivals[arrivals.len() - 1].0].contains(phrase));
            assert forall|a: int| 0 <= a < earlier.len() implies !batches[(
            #[trigger] earlier[a]).0].contains(phrase) by {
                assert(earlier[a] == arrivals[a]);
            }
            assert(lookup(before, phrase) == lookup(table, phrase));
        }
    }
}

/// Once every batch has its reply, in whatever order the replies came, and
/// no translation that came is empty, no phrase is left unresolved.
pub proof fn lemma_no_phrase_is_left_unresolved(
    table: Table,
    arrivals: Seq<(int, Option<Seq<Seq<char>>>)>,
)
    requires
        distinct_keys(table),
        forall|a: int|
            0 <= a < arrivals.len() ==> 0 <= (#[trigger] arrivals[a]).0 < batches_of(
                unresolved(table),
            ).len(),
        forall|a: int, b: int|
            0 <= a < b < arrivals.len() ==> (#[trigger] arrivals[a]).0 != (
            #[trigger] arrivals[b]).0,
        forall|k: int|
            0 <= k < batches_of(unresolved(table)).len() ==> #[trigger] has_reply(arrivals, k),
        forall|a: int, o: int|
            0 <= a < arrivals.len() && 0 <= o < batches_of(unresolved(table))[arrivals[a].0].len()
                && arrivals[a].1 is Some ==> (#[trigger] arrivals[a].1->Some_0[o]).len() > 0,
    ensures
        resolved(after_replies(table, batches_of(unresolved(table)), arrivals)),
{
    let phrases = unresolved(table);
    let batches = batches_of(phrases);
    let end = after_replies(table, batches, arrivals);
    lemma_replies_settle_their_batches(table, arrivals);
    lemma_unresolved(table);
    lemma_batches_partition(phrases);
    reveal_strlit("Error");
    assert forall|i: int| 0 <= i < end.len() implies (#[trigger] end[i]).1.len() > 0 by {
        let p = table[i].0;
        assert(end[i].0 == p);
        assert(is_first(end, p, i)) by {
            assert forall|j: int| 0 <= j < i implies (#[trigger] end[j]).0 != p by {
                assert(end[j].0 != end[i].0);
            }
        }
        lemma_first_index_found(end, p, i);
        if table[i].1.len() == 0 {
            assert(table[i].1 =~= Seq::<char>::empty());
            assert(table[i] == (p, Seq::<char>::empty()));
            assert(phrases.contains(p));
            let u = choose|u: int| 0 <= u < phrases.len() && phrases[u] == p;
            let k = u / (BATCH_SIZE as int);
            let o = u % (BATCH_SIZE as int);
            assert(phrases[u] == batches[k][o]);
            assert(0 <= k < batches.len() && 0 <= o < batches[k].len()) by {
                assert(batches[k] == batch(phrases, k));
            }
            assert(has_reply(arrivals, k));
            let a = choose|a: int| 0 <= a < arrivals.len() && (#[trigger] arrivals[a]).0 == k;
            assert(lookup(end, batches[arrivals[a].0][o]) == Some(
                match arrivals[a].1 {
                    Some(translations) => translations[o],
                    None => failure_marker(),
                },
            ));
            if arrivals[a].1 is Some {
                assert(arrivals[a].1->Some_0[o].len() > 0);
            }
        } else {
            assert forall|a: int| 0 <= a < arrivals.len() implies !batches[(
            #[trigger] arrivals[a]).0].contains(p) by {
                let k = arrivals[a].0;
                if batches[k].contains(p) {
                    let o = choose|o: int| 0 <= o < batches[k].len() && batches[k][o] == p;
                    assert(batches[k][o] == phrases[k * BATCH_SIZE + o]);
                    assert(phrases.contains(p));
                    let at = choose|at: int|
                        0 <= at < table.len() && #[trigger] table[at] == (
                            p,
                            Seq::<char>::empty(),
                        );
                    if at < i {
                        assert(table[at].0 != table[i].0);
                    } else if i < at {
                        assert(table[i].0 != table[at].0);
                    }
                }
            }
            assert(lookup(end, p) == lookup(table, p));
            assert(is_first(table, p, i)) by {
                assert forall|j: int| 0 <= j < i implies (#[trigger] table[j]).0 != p by {
                    assert(table[j].0 != table[i].0);
                }
            }
            lemma_first_index_found(table, p, i);
        }
    }
}

/// At every moment of a run the phrase map holds the phrases that it held
/// at the start, in their places, and no other.
pub proof fn lemma_run_keeps_phrases(run: DriverView)
    requires
        run.consistent(),
    ensures
        run.table.len() == run.start.len(),
        distinct_keys(run.table),
        forall|i: int| 0 <= i < run.start.len() ==> (#[trigger] run.table[i]).0 == run.start[i].0,
        forall|phrase: Seq<char>| knows(run.start, phrase) ==> #[trigger] knows(run.table, phrase),
{
    assert forall|a: int| 0 <= a < run.arrivals.len() implies 0 <= (#[trigger] run.arrivals[a]).0
        < batches_of(unresolved(run.start)).len() by {}
    lemma_replies_settle_their_batches(run.start, run.arrivals);
    assert forall|phrase: Seq<char>| knows(run.start, phrase) implies #[trigger] knows(
        run.table,
        phrase,
    ) by {
        lemma_known_stays_known(run.start, run.table, phrase);
    }
}

/// When a run is finished, every batch went out and has its reply; if no
/// translation came empty, no phrase is left unresolved.
pub proof fn lemma_finished_run_is_resolved(run: DriverView)
    requires
        run.consistent(),
        run.dispatched == run.batches.len(),
        run.in_flight.len() == 0,
        forall|a: int, o: int|
            0 <= a < run.arrivals.len() && 0 <= o < run.batches[run.arrivals[a].0].len()
                && run.arrivals[a].1 is Some ==> (#[trigger] run.arrivals[a].1->Some_0[o]).len()
                > 0,
    ensures
        resolved(run.table),
{
    assert forall|a: int| 0 <= a < run.arrivals.len() implies 0 <= (#[trigger] run.arrivals[a]).0
        < batches_of(unresolved(run.start)).len() by {}
    assert forall|k: int|
        0 <= k < batches_of(unresolved(run.start)).len() implies #[trigger] has_reply(
        run.arrivals,
        k,
    ) by {
        assert(!run.in_flight.contains(k as nat));
    }
    lemma_no_phrase_is_left_unresolved(run.start, run.arrivals);
}

} // verus!
