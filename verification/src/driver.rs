//! The decisions of the translation run: which batch goes out next, when to
//! wait, and what a reply does to the phrase map.
//!
//! The driver sends nothing itself. Its caller asks for the next action,
//! sends each batch that is handed out, and reports each reply when it
//! arrives, in whatever order the replies come.

use crate::batch::{
    batch_outcome, batches_of, delivered, lemma_batches_partition, outcome, split_batches,
    RemoteBatchError, BATCH_SIZE,
};
use crate::assoc::distinct_keys;
use crate::phrases::{stored, unresolved, PhraseMap, Table};
use vstd::prelude::*;

verus! {

/// Largest number of requests that are under way at one time.
pub const MAX_IN_FLIGHT: usize = 5;

/// Model of a driver.
pub struct DriverView {
    /// The phrase map as it was when the run began.
    pub start: Table,
    /// The phrase map as it stands.
    pub table: Table,
    /// The batches of the run; fixed when the driver is made.
    pub batches: Seq<Seq<Seq<char>>>,
    /// Number of batches handed out so far: the batches before this number
    /// went out, the others wait.
    pub dispatched: nat,
    /// The batches that went out and have no reply yet, in the order in
    /// which they went out.
    pub in_flight: Seq<nat>,
    /// The replies taken so far, in the order in which they came: each with
    /// the number of its batch and the translations that it brought, if it
    /// brought any.
    pub arrivals: Seq<(int, Option<Seq<Seq<char>>>)>,
}

/// The table after the replies in `arrivals` were stored in the order in
/// which they came. A reply is the number of its batch and the translations
/// that it brought, if it brought any.
pub open spec fn after_replies(
    table: Table,
    batches: Seq<Seq<Seq<char>>>,
    arrivals: Seq<(int, Option<Seq<Seq<char>>>)>,
) -> Table
    decreases arrivals.len(),
{
    if arrivals.len() == 0 {
        table
    } else {
        stored(
            after_replies(table, batches, arrivals.drop_last()),
            outcome(batches[arrivals.last().0], arrivals.last().1),
        )
    }
}

/// A reply to batch `k` is among `arrivals`.
pub open spec fn has_reply(arrivals: Seq<(int, Option<Seq<Seq<char>>>)>, k: int) -> bool {
    exists|a: int| 0 <= a < arrivals.len() && (#[trigger] arrivals[a]).0 == k
}


impl DriverView {
    /// What holds of every state of a run. The batches are the runs of the
    /// phrases that were unresolved at the start, and the phrase map is what
    /// the replies taken so far made of it. The batches go out in order,
    /// never more than `MAX_IN_FLIGHT` are under way, and each batch that
    /// went out is either under way or has its reply, never both and never
    /// twice.
    pub open spec fn consistent(self) -> bool {
        &&& distinct_keys(self.start)
        &&& self.batches == batches_of(unresolved(self.start))
        &&& self.table == after_replies(self.start, self.batches, self.arrivals)
        &&& self.dispatched <= self.batches.len()
        &&& self.in_flight.len() <= MAX_IN_FLIGHT
        &&& self.in_flight.no_duplicates()
        &&& forall|i: int|
            0 <= i < self.in_flight.len() ==> (#[trigger] self.in_flight[i]) < self.dispatched
        &&& forall|a: int|
            0 <= a < self.arrivals.len() ==> 0 <= (#[trigger] self.arrivals[a]).0
                < self.dispatched
        &&& forall|a: int, b: int|
            0 <= a < b < self.arrivals.len() ==> (#[trigger] self.arrivals[a]).0 != (
            #[trigger] self.arrivals[b]).0
        &&& forall|a: int, i: int|
            0 <= a < self.arrivals.len() && 0 <= i < self.in_flight.len() ==> (
            #[trigger] self.arrivals[a]).0 != #[trigger] self.in_flight[i]
        &&& forall|k: int|
            0 <= k < self.dispatched ==> self.in_flight.contains(k as nat) || #[trigger] has_reply(
                self.arrivals,
                k,
            )
    }

    /// A batch waits and a request may go out.
    pub open spec fn can_dispatch(self) -> bool {
        self.dispatched < self.batches.len() && self.in_flight.len() < MAX_IN_FLIGHT
    }

    /// The state after batch number `dispatched` went out.
    pub open spec fn after_dispatch(self) -> DriverView {
        DriverView {
            dispatched: self.dispatched + 1,
            in_flight: self.in_flight.push(self.dispatched),
            ..self
        }
    }

    /// The state after the reply to `batch` arrived: what the reply brought
    /// is stored, and the batch is no longer under way.
    pub open spec fn after_reply(self, batch: nat, brought: Option<Seq<Seq<char>>>) -> DriverView {
        DriverView {
            table: stored(self.table, outcome(self.batches[batch as int], brought)),
            in_flight: self.in_flight.remove(self.in_flight.index_of(batch)),
            arrivals: self.arrivals.push((batch as int, brought)),
            ..self
        }
    }
}

/// What the caller of a driver does next.
#[derive(Debug, PartialEq)]
pub enum Action {
    /// Send these phrases as one request, and report the reply under this
    /// batch number.
    Dispatch {
        /// The number of the batch.
        batch: usize,
        /// The phrases of the batch, in order.
        phrases: Vec<String>,
    },
    /// Wait for the reply to any request that is under way, and report it.
    Wait,
    /// Every batch went out and every reply is in.
    Finished,
}

/// State of one translation run.
pub struct Driver {
    translations: PhraseMap,
    batches: Vec<Vec<String>>,
    next: usize,
    flying: Vec<usize>,
    start: Ghost<Table>,
    arrivals: Ghost<Seq<(int, Option<Seq<Seq<char>>>)>>,
}

/// The batch numbers in `flying`, as numbers of the model.
spec fn numbers(flying: Seq<usize>) -> Seq<nat> {
    Seq::new(flying.len(), |i: int| flying[i] as nat)
}

impl View for Driver {
    type V = DriverView;

    closed spec fn view(&self) -> DriverView {
        DriverView {
            start: self.start@,
            table: self.translations@,
            batches: self.batches.deep_view(),
            dispatched: self.next as nat,
            in_flight: numbers(self.flying@),
            arrivals: self.arrivals@,
        }
    }
}

fn copy_phrases(phrases: &Vec<String>) -> (copy: Vec<String>)
    ensures
        copy.deep_view() == phrases.deep_view(),
{
    let mut copy: Vec<String> = Vec::new();
    let mut i: usize = 0;
    while i < phrases.len()
        invariant
            i <= phrases.len(),
            copy.deep_view() =~= phrases.deep_view().take(i as int),
        decreases phrases.len() - i,
    {
        let ghost before = copy.deep_view();
        copy.push(phrases[i].clone());
        assert(phrases.deep_view()[i as int] == phrases[i as int]@);
        assert(copy.deep_view() =~= before.push(phrases[i as int]@));
        i += 1;
    }
    assert(phrases.deep_view().take(i as int) =~= phrases.deep_view());
    copy
}

impl Driver {
    #[verifier::type_invariant]
    spec fn sound(self) -> bool {
        self@.consistent()
    }

    /// A run that resolves the phrases of `translations` that have no
    /// translation yet. Nothing has gone out.
    pub fn new(translations: PhraseMap) -> (driver: Driver)
        ensures
            driver@ == (DriverView {
                start: translations@,
                table: translations@,
                batches: batches_of(unresolved(translations@)),
                dispatched: 0,
                in_flight: Seq::empty(),
                arrivals: Seq::empty(),
            }),
            unresolved(translations@).no_duplicates(),
            driver@.consistent(),
    {
        proof {
            use_type_invariant(&translations);
        }
        let batches = split_batches(translations.unresolved());
        let flying: Vec<usize> = Vec::new();
        assert(numbers(flying@) =~= Seq::empty());
        let start = Ghost(translations@);
        Driver { translations, batches, next: 0, flying, start, arrivals: Ghost(Seq::empty()) }
    }

    fn take(&mut self) -> (taken: Driver)
        ensures
            taken == *old(self),
            taken.sound(),
    {
        proof {
            use_type_invariant(&*self);
        }
        let batches: Vec<Vec<String>> = Vec::new();
        let flying: Vec<usize> = Vec::new();
        proof {
            let none = Seq::<(Seq<char>, Seq<char>)>::empty();
            assert(batches.deep_view() =~= batches_of(unresolved(none)));
            assert(numbers(flying@) =~= Seq::empty());
        }
        let mut taken = Driver {
            translations: PhraseMap::new(),
            batches,
            next: 0,
            flying,
            start: Ghost(Seq::empty()),
            arrivals: Ghost(Seq::empty()),
        };
        core::mem::swap(self, &mut taken);
        taken
    }

    /// Decides what the caller does next. A batch is handed out while one
    /// waits and fewer than `MAX_IN_FLIGHT` requests are under way; the
    /// batches go out in order.
    pub fn next_action(&mut self) -> (action: Action)
        ensures
            final(self)@.consistent(),
            match action {
                Action::Dispatch { batch, phrases } => {
                    &&& 1 <= phrases.len() <= BATCH_SIZE
                    &&& old(self)@.can_dispatch()
                    &&& batch == old(self)@.dispatched
                    &&& phrases.deep_view() == old(self)@.batches[batch as int]
                    &&& final(self)@ == old(self)@.after_dispatch()
                },
                Action::Wait => {
                    &&& !old(self)@.can_dispatch()
                    &&& old(self)@.in_flight.len() > 0
                    &&& final(self)@ == old(self)@
                },
                Action::Finished => {
                    &&& old(self)@.dispatched == old(self)@.batches.len()
                    &&& old(self)@.in_flight.len() == 0
                    &&& forall|k: int|
                        0 <= k < old(self)@.batches.len() ==> #[trigger] has_reply(
                            old(self)@.arrivals,
                            k,
                        )
                    &&& final(self)@ == old(self)@
                },
            },
    {
        proof {
            use_type_invariant(&*self);
        }
        if self.next < self.batches.len() && self.flying.len() < MAX_IN_FLIGHT {
            let ghost before = self@;
            let Driver { translations, batches, next, mut flying, start, arrivals } = self.take();
            let phrases = copy_phrases(&batches[next]);
            flying.push(next);
            proof {
                lemma_batches_partition(unresolved(before.start));
                assert(batches.deep_view()[next as int] == batches[next as int].deep_view());
                let after = numbers(flying@);
                assert(after =~= before.in_flight.push(next as nat));
                assert forall|k: int| 0 <= k < next + 1 implies after.contains(k as nat)
                    || #[trigger] has_reply(before.arrivals, k) by {
                    if k == next {
                        assert(after[after.len() - 1] == k as nat);
                    } else if before.in_flight.contains(k as nat) {
                        let i = choose|i: int|
                            0 <= i < before.in_flight.len() && before.in_flight[i] == k as nat;
                        assert(after[i] == k as nat);
                    }
                }
            }
            *self = Driver { translations, batches, next: next + 1, flying, start, arrivals };
            Action::Dispatch { batch: next, phrases }
        } else if self.flying.len() > 0 {
            Action::Wait
        } else {
            assert forall|k: int| 0 <= k < self@.batches.len() implies #[trigger] has_reply(
                self@.arrivals,
                k,
            ) by {
                assert(!self@.in_flight.contains(k as nat));
            }
            Action::Finished
        }
    }

    /// Takes the reply to a batch that is under way: each phrase of the
    /// batch gets its translation, or the failure marker where the request
    /// failed. A batch number that is not under way changes nothing.
    pub fn complete(
        &mut self,
        batch: usize,
        reply: Result<Vec<String>, RemoteBatchError>,
    ) -> (accepted: bool)
        ensures
            final(self)@.consistent(),
            accepted == old(self)@.in_flight.contains(batch as nat),
            accepted ==> final(self)@ == old(self)@.after_reply(
                batch as nat,
                delivered(reply, old(self)@.batches[batch as int].len()),
            ),
            !accepted ==> final(self)@ == old(self)@,
    {
        proof {
            use_type_invariant(&*self);
        }
        let ghost before = self@;
        let mut at: usize = 0;
        while at < self.flying.len() && self.flying[at] != batch
            invariant
                at <= self.flying.len(),
                self@ == before,
                forall|i: int| 0 <= i < at ==> (#[trigger] before.in_flight[i]) != batch,
            decreases self.flying.len() - at,
        {
            at += 1;
        }
        if at == self.flying.len() {
            return false;
        }
        assert(before.in_flight[at as int] == batch);
        assert(before.in_flight.index_of(batch as nat) == at);
        let Driver { mut translations, batches, next, mut flying, start, arrivals } = self.take();
        let ghost brought = delivered(reply, before.batches[batch as int].len());
        let pairs = batch_outcome(&batches[batch], reply);
        translations.store(&pairs);
        flying.remove(at);
        let arrivals = Ghost(arrivals@.push((batch as int, brought)));
        proof {
            let after = numbers(flying@);
            let taken = arrivals@;
            assert(after =~= before.in_flight.remove(at as int));
            assert(batches.deep_view()[batch as int] == batches[batch as int].deep_view());
            assert(taken.drop_last() =~= before.arrivals);
            assert forall|i: int| 0 <= i < after.len() implies (#[trigger] after[i]) < next
                && after[i] != batch by {
                let j = if i < at {
                    i
                } else {
                    i + 1
                };
                assert(before.in_flight[j] < next);
                assert(before.in_flight[j] != before.in_flight[at as int]);
            }
            assert(after.no_duplicates()) by {
                assert forall|i: int, j: int| 0 <= i < after.len() && 0 <= j < after.len() && i
                    != j implies after[i] != after[j] by {
                    let a = if i < at {
                        i
                    } else {
                        i + 1
                    };
                    let b = if j < at {
                        j
                    } else {
                        j + 1
                    };
                    assert(before.in_flight[a] != before.in_flight[b]);
                }
            }
            assert forall|k: int| 0 <= k < next implies after.contains(k as nat)
                || #[trigger] has_reply(taken, k) by {
                if k == batch {
                    assert(taken[taken.len() - 1].0 == k);
                } else if before.in_flight.contains(k as nat) {
                    let i = choose|i: int|
                        0 <= i < before.in_flight.len() && before.in_flight[i] == k as nat;
                    let j = if i < at {
                        i
                    } else {
                        i - 1
                    };
                    assert(after[j] == k as nat);
                } else {
                    assert(has_reply(before.arrivals, k));
                    let a = choose|a: int|
                        0 <= a < before.arrivals.len() && (#[trigger] before.arrivals[a]).0 == k;
                    assert(taken[a].0 == k);
                }
            }
            assert forall|a: int, b: int| 0 <= a < b < taken.len() implies (#[trigger] taken[a]).0
                != (#[trigger] taken[b]).0 by {
                if b == taken.len() - 1 {
                    assert(before.arrivals[a].0 != before.in_flight[at as int]);
                } else {
                    assert(before.arrivals[a].0 != before.arrivals[b].0);
                }
            }
            assert forall|a: int, i: int|
                0 <= a < taken.len() && 0 <= i < after.len() implies (#[trigger] taken[a]).0
                != #[trigger] after[i] by {
                let j = if i < at {
                    i
                } else {
                    i + 1
                };
                if a < before.arrivals.len() {
                    assert(before.arrivals[a].0 != before.in_flight[j]);
                }
            }
            assert forall|a: int| 0 <= a < taken.len() implies 0 <= (#[trigger] taken[a]).0
                < next by {
                if a < before.arrivals.len() {
                    assert(0 <= before.arrivals[a].0 < next);
                }
            }
        }
        *self = Driver { translations, batches, next, flying, start, arrivals };
        true
    }

    /// The phrase map as it stands.
    pub fn translations(&self) -> (translations: &PhraseMap)
        ensures
            translations@ == self@.table,
    {
        &self.translations
    }

    /// Ends the run and hands the phrase map back.
    pub fn finish(self) -> (translations: PhraseMap)
        ensures
            translations@ == self@.table,
    {
        self.translations
    }
}

} // verus!
