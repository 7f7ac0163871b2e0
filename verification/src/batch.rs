//! Cutting the unresolved phrases into requests, and reading the replies.

use crate::phrases::{pairs_view, Table};
use vstd::prelude::*;

verus! {

/// Largest number of phrases that one request carries.
pub const BATCH_SIZE: usize = 128;

/// Number of requests needed for `n` phrases.
pub open spec fn batch_count(n: nat) -> nat {
    ((n + BATCH_SIZE - 1) / (BATCH_SIZE as int)) as nat
}

/// The `k`-th run of `BATCH_SIZE` phrases; the last one may be shorter.
pub open spec fn batch<T>(phrases: Seq<T>, k: int) -> Seq<T> {
    phrases.subrange(
        k * BATCH_SIZE,
        if (k + 1) * BATCH_SIZE <= phrases.len() {
            (k + 1) * BATCH_SIZE
        } else {
            phrases.len() as int
        },
    )
}

/// All the runs of `phrases`, in order.
pub open spec fn batches_of<T>(phrases: Seq<T>) -> Seq<Seq<T>> {
    Seq::new(batch_count(phrases.len()), |k: int| batch(phrases, k))
}

/// The batches hold the phrases one for one and in order: every batch but
/// the last is full, none is empty, and the phrase at place `o` of batch `k`
/// is the phrase at place `k * BATCH_SIZE + o` of the whole.
pub proof fn lemma_batches_partition<T>(phrases: Seq<T>)
    ensures
        batches_of(phrases).len() == batch_count(phrases.len()),
        batch_count(phrases.len()) * BATCH_SIZE >= phrases.len(),
        phrases.len() > 0 ==> (batch_count(phrases.len()) - 1) * BATCH_SIZE < phrases.len(),
        forall|k: int|
            0 <= k < batches_of(phrases).len() ==> 1 <= (#[trigger] batches_of(phrases)[k]).len()
                <= BATCH_SIZE,
        forall|k: int|
            0 <= k < batches_of(phrases).len() - 1 ==> (#[trigger] batches_of(phrases)[k]).len()
                == BATCH_SIZE,
        forall|k: int, o: int|
            0 <= k < batches_of(phrases).len() && 0 <= o < batches_of(phrases)[k].len()
                ==> #[trigger] batches_of(phrases)[k][o] == phrases[k * BATCH_SIZE + o],
        forall|i: int|
            0 <= i < phrases.len() ==> (#[trigger] phrases[i]) == batches_of(phrases)[i / (
            BATCH_SIZE as int)][i % (BATCH_SIZE as int)],
{
    let all = batches_of(phrases);
    assert forall|k: int| 0 <= k < all.len() implies 1 <= (#[trigger] all[k]).len()
        <= BATCH_SIZE by {
        assert(all[k] == batch(phrases, k));
    }
    assert forall|k: int| 0 <= k < all.len() - 1 implies (#[trigger] all[k]).len()
        == BATCH_SIZE by {
        assert(all[k] == batch(phrases, k));
    }
    assert forall|k: int, o: int|
        0 <= k < all.len() && 0 <= o < all[k].len() implies #[trigger] all[k][o] == phrases[k
        * BATCH_SIZE + o] by {
        assert(all[k] == batch(phrases, k));
    }
    assert forall|i: int| 0 <= i < phrases.len() implies (#[trigger] phrases[i]) == all[i / (
    BATCH_SIZE as int)][i % (BATCH_SIZE as int)] by {
        let k = i / (BATCH_SIZE as int);
        assert(all[k] == batch(phrases, k));
    }
}

/// Cuts `phrases` into runs of `BATCH_SIZE`, in order; only the last run may
/// be shorter, and no run is empty.
pub fn split_batches(phrases: Vec<String>) -> (batches: Vec<Vec<String>>)
    ensures
        batches.deep_view() == batches_of(phrases.deep_view()),
        batches.len() == batch_count(phrases.len() as nat),
{
    let ghost all = phrases@;
    let mut batches: Vec<Vec<String>> = Vec::new();
    let mut rest = phrases;
    assert(all.skip(0) =~= all);
    while rest.len() > BATCH_SIZE
        invariant
            batches.len() * BATCH_SIZE <= all.len(),
            rest@ == all.skip(batches.len() * BATCH_SIZE),
            forall|k: int| 0 <= k < batches.len() ==> (#[trigger] batches[k])@ == batch(all, k),
        decreases rest.len(),
    {
        let tail = rest.split_off(BATCH_SIZE);
        assert(rest@ =~= batch(all, batches.len() as int));
        assert(tail@ =~= all.skip((batches.len() + 1) * BATCH_SIZE));
        batches.push(rest);
        rest = tail;
    }
    if rest.len() > 0 {
        assert(rest@ =~= batch(all, batches.len() as int));
        batches.push(rest);
    }
    proof {
        let deep = phrases.deep_view();
        assert(batches.len() == batch_count(all.len()));
        assert forall|k: int| 0 <= k < batches.len() implies (#[trigger] batches.deep_view()[k])
            == batch(deep, k) by {
            assert(batches[k]@ == batch(all, k));
            assert(batches[k].deep_view() =~= batch(deep, k));
        }
        assert(batches.deep_view() =~= batches_of(deep));
    }
    batches
}

/// The query of one request: the credential, the target language, and one
/// `q` for each phrase, in order.
pub open spec fn query(key: Seq<char>, language: Seq<char>, phrases: Seq<Seq<char>>) -> Table {
    seq![("key"@, key), ("target"@, language)] + Seq::new(
        phrases.len(),
        |i: int| ("q"@, phrases[i]),
    )
}

/// Builds the query of the request that asks for `phrases` in `language`.
pub fn request_parameters(key: &str, language: &str, phrases: &Vec<String>) -> (parameters: Vec<
    (String, String),
>)
    ensures
        pairs_view(parameters@) == query(key@, language@, phrases.deep_view()),
{
    let ghost expected = query(key@, language@, phrases.deep_view());
    let mut parameters: Vec<(String, String)> = Vec::new();
    parameters.push(("key".to_owned(), key.to_owned()));
    parameters.push(("target".to_owned(), language.to_owned()));
    assert(pairs_view(parameters@) =~= expected.take(2));
    let mut i: usize = 0;
    while i < phrases.len()
        invariant
            i <= phrases.len(),
            expected == query(key@, language@, phrases.deep_view()),
            pairs_view(parameters@) =~= expected.take(2 + i),
        decreases phrases.len() - i,
    {
        let ghost before = pairs_view(parameters@);
        parameters.push(("q".to_owned(), phrases[i].clone()));
        assert(phrases.deep_view()[i as int] == phrases[i as int]@);
        assert(pairs_view(parameters@) =~= before.push(expected[2 + i]));
        i += 1;
    }
    assert(expected.take(2 + i) =~= expected);
    parameters
}

/// Why a request brought no translations.
#[derive(Debug, PartialEq, Eq, Clone, Copy)]
pub enum RemoteBatchError {
    /// The request could not be sent, or the service refused it.
    Request,
    /// The reply could not be read.
    Decode,
}

/// The text written in place of a translation when a request failed.
pub open spec fn failure_marker() -> Seq<char> {
    "Error"@
}

/// The translations that a reply brought for `wanted` phrases: one for each,
/// in order. A failed request brought none, and neither did a reply of
/// another length.
pub open spec fn delivered(reply: Result<Vec<String>, RemoteBatchError>, wanted: nat) -> Option<
    Seq<Seq<char>>,
> {
    match reply {
        Ok(translations) if translations.len() == wanted => Some(translations.deep_view()),
        _ => None,
    }
}

/// Each phrase of `batch` with what its request brought for it: its
/// translation, or the failure marker where the request brought nothing.
pub open spec fn outcome(batch: Seq<Seq<char>>, delivered: Option<Seq<Seq<char>>>) -> Table {
    Seq::new(
        batch.len(),
        |i: int|
            (
                batch[i],
                match delivered {
                    Some(translations) => translations[i],
                    None => failure_marker(),
                },
            ),
    )
}

/// Pairs each phrase of `batch` with the translation that `reply` holds for
/// it, or with the failure marker where the request failed as a whole.
pub fn batch_outcome(batch: &Vec<String>, reply: Result<Vec<String>, RemoteBatchError>) -> (pairs:
    Vec<(String, String)>)
    ensures
        pairs_view(pairs@) == outcome(batch.deep_view(), delivered(reply, batch.len() as nat)),
{
    let ghost expected = outcome(batch.deep_view(), delivered(reply, batch.len() as nat));
    let mut pairs: Vec<(String, String)> = Vec::new();
    let mut i: usize = 0;
    match reply {
        Ok(translations) if translations.len() == batch.len() => {
            while i < batch.len()
                invariant
                    i <= batch.len(),
                    translations.len() == batch.len(),
                    expected == outcome(batch.deep_view(), Some(translations.deep_view())),
                    pairs_view(pairs@) =~= expected.take(i as int),
                decreases batch.len() - i,
            {
                let ghost before = pairs_view(pairs@);
                pairs.push((batch[i].clone(), translations[i].clone()));
                assert(batch.deep_view()[i as int] == batch[i as int]@);
                assert(translations.deep_view()[i as int] == translations[i as int]@);
                assert(pairs_view(pairs@) =~= before.push(expected[i as int]));
                i += 1;
            }
        },
        _ => {
            while i < batch.len()
                invariant
                    i <= batch.len(),
                    expected == outcome(batch.deep_view(), None),
                    pairs_view(pairs@) =~= expected.take(i as int),
                decreases batch.len() - i,
            {
                let ghost before = pairs_view(pairs@);
                pairs.push((batch[i].clone(), "Error".to_owned()));
                assert(batch.deep_view()[i as int] == batch[i as int]@);
                assert(pairs_view(pairs@) =~= before.push(expected[i as int]));
                i += 1;
            }
        },
    }
    assert(expected.take(i as int) =~= expected);
    pairs
}

} // verus!
