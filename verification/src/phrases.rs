//! The phrase map: each distinct source phrase with its translation.

use crate::assoc::{
    distinct_keys, first_index, is_absent, is_first, lemma_first_index, lemma_first_index_absent,
    lemma_first_index_found, lookup,
};
use vstd::prelude::*;

verus! {

/// Model of a phrase map: pairs of phrase and translation, in the order in
/// which the phrases were first recorded. An empty translation marks a phrase
/// that is not resolved yet.
pub type Table = Seq<(Seq<char>, Seq<char>)>;

/// The table with `translation` stored under `phrase`: in place where the
/// phrase is known, at the end where it is new.
pub open spec fn put(table: Table, phrase: Seq<char>, translation: Seq<char>) -> Table {
    match first_index(table, phrase) {
        Some(i) => table.update(i, (phrase, translation)),
        None => table.push((phrase, translation)),
    }
}

/// The table after one occurrence of `phrase` was seen, with the string
/// that the target holds in its place, if it holds one.
///
/// A translation that is not empty is stored. Otherwise the phrase is
/// entered as unresolved unless the table knows it already: what an earlier
/// occurrence brought is never replaced by a placeholder.
pub open spec fn record(table: Table, phrase: Seq<char>, existing: Option<Seq<char>>) -> Table {
    match existing {
        Some(translation) if translation.len() > 0 => put(table, phrase, translation),
        _ => if first_index(table, phrase) is Some {
            table
        } else {
            table.push((phrase, Seq::empty()))
        },
    }
}

/// The phrases without a translation, in table order.
pub open spec fn unresolved(table: Table) -> Seq<Seq<char>>
    decreases table.len(),
{
    if table.len() == 0 {
        Seq::empty()
    } else if table.last().1.len() == 0 {
        unresolved(table.drop_last()).push(table.last().0)
    } else {
        unresolved(table.drop_last())
    }
}

/// Every phrase has a translation.
pub open spec fn resolved(table: Table) -> bool {
    forall|i: int| 0 <= i < table.len() ==> (#[trigger] table[i]).1.len() > 0
}

/// The table after each pair of `pairs` was stored, in order.
pub open spec fn stored(table: Table, pairs: Table) -> Table
    decreases pairs.len(),
{
    if pairs.len() == 0 {
        table
    } else {
        put(stored(table, pairs.drop_last()), pairs.last().0, pairs.last().1)
    }
}

/// The table knows `phrase`.
pub open spec fn knows(table: Table, phrase: Seq<char>) -> bool {
    first_index(table, phrase) is Some
}

/// After `put`, the phrase has the translation that was stored, and every
/// other phrase has what it had. No phrase is lost, none moves, and a table
/// without repeated phrases stays one.
pub proof fn lemma_put(table: Table, phrase: Seq<char>, translation: Seq<char>)
    ensures
        lookup(put(table, phrase, translation), phrase) == Some(translation),
        forall|other: Seq<char>|
            other != phrase ==> #[trigger] lookup(put(table, phrase, translation), other)
                == lookup(table, other),
        distinct_keys(table) ==> distinct_keys(put(table, phrase, translation)),
        table.len() <= put(table, phrase, translation).len(),
        forall|i: int|
            0 <= i < table.len() ==> (#[trigger] put(table, phrase, translation)[i]).0
                == table[i].0,
        knows(table, phrase) ==> put(table, phrase, translation).len() == table.len(),
{
    let after = put(table, phrase, translation);
    lemma_first_index(table, phrase);
    match first_index(table, phrase) {
        Some(i) => {
            assert(is_first(after, phrase, i));
            lemma_first_index_found(after, phrase, i);
        },
        None => {
            assert(is_first(after, phrase, table.len() as int));
            lemma_first_index_found(after, phrase, table.len() as int);
        },
    }
    assert forall|other: Seq<char>| other != phrase implies #[trigger] lookup(after, other)
        == lookup(table, other) by {
        lemma_first_index(table, other);
        match first_index(table, other) {
            Some(i) => {
                assert(is_first(after, other, i));
                lemma_first_index_found(after, other, i);
            },
            None => {
                assert(is_absent(after, other));
                lemma_first_index_absent(after, other);
            },
        }
    }
}

/// After `record`, the table knows the phrase and everything it knew, no
/// phrase has moved, and a table without repeated phrases stays one. A
/// translation that was there is still there unless a new one came.
pub proof fn lemma_record(table: Table, phrase: Seq<char>, existing: Option<Seq<char>>)
    ensures
        knows(record(table, phrase, existing), phrase),
        forall|other: Seq<char>|
            other != phrase ==> #[trigger] lookup(record(table, phrase, existing), other)
                == lookup(table, other),
        distinct_keys(table) ==> distinct_keys(record(table, phrase, existing)),
        existing matches Some(translation) && translation.len() > 0 ==> lookup(
            record(table, phrase, existing),
            phrase,
        ) == existing,
        !(existing matches Some(translation) && translation.len() > 0) && knows(table, phrase)
            ==> record(table, phrase, existing) == table,
        !(existing matches Some(translation) && translation.len() > 0) && !knows(table, phrase)
            ==> lookup(record(table, phrase, existing), phrase) == Some(Seq::<char>::empty()),
{
    lemma_put(table, phrase, Seq::empty());
    match existing {
        Some(translation) => {
            lemma_put(table, phrase, translation);
        },
        None => {},
    }
}

/// The unresolved phrases are the phrases that stand with an empty
/// translation, each as often as it stands so.
pub proof fn lemma_unresolved(table: Table)
    ensures
        forall|phrase: Seq<char>| #[trigger]
            unresolved(table).contains(phrase) <==> exists|i: int|
                0 <= i < table.len() && #[trigger] table[i] == (phrase, Seq::<char>::empty()),
        distinct_keys(table) ==> unresolved(table).no_duplicates(),
        resolved(table) <==> unresolved(table).len() == 0,
    decreases table.len(),
{
    if table.len() > 0 {
        let front = table.drop_last();
        let last = table.last();
        lemma_unresolved(front);
        assert forall|phrase: Seq<char>| #[trigger]
            unresolved(table).contains(phrase) <==> exists|i: int|
                0 <= i < table.len() && #[trigger] table[i] == (phrase, Seq::<char>::empty()) by {
            if unresolved(table).contains(phrase) {
                let at = choose|at: int|
                    0 <= at < unresolved(table).len() && unresolved(table)[at] == phrase;
                if last.1.len() == 0 && at == unresolved(front).len() {
                    assert(last.1 =~= Seq::empty());
                    assert(table[table.len() - 1] == (phrase, Seq::<char>::empty()));
                } else {
                    assert(unresolved(front)[at] == phrase);
                    assert(unresolved(front).contains(phrase));
                    let i = choose|i: int|
                        0 <= i < front.len() && #[trigger] front[i] == (
                            phrase,
                            Seq::<char>::empty(),
                        );
                    assert(table[i] == (phrase, Seq::<char>::empty()));
                }
            }
            if exists|i: int|
                0 <= i < table.len() && #[trigger] table[i] == (phrase, Seq::<char>::empty()) {
                let i = choose|i: int|
                    0 <= i < table.len() && #[trigger] table[i] == (phrase, Seq::<char>::empty());
                if i < front.len() {
                    assert(front[i] == (phrase, Seq::<char>::empty()));
                    assert(unresolved(front).contains(phrase));
                    let at = choose|at: int|
                        0 <= at < unresolved(front).len() && unresolved(front)[at] == phrase;
                    assert(unresolved(table)[at] == phrase);
                } else {
                    assert(unresolved(table)[unresolved(front).len() as int] == phrase);
                }
            }
        }
        if distinct_keys(table) {
            assert(distinct_keys(front)) by {
                assert forall|i: int, j: int| 0 <= i < j < front.len() implies (
                #[trigger] front[i]).0 != (#[trigger] front[j]).0 by {
                    assert(table[i].0 != table[j].0);
                }
            }
            if last.1.len() == 0 {
                if unresolved(front).contains(last.0) {
                    let i = choose|i: int|
                        0 <= i < front.len() && #[trigger] front[i] == (
                            last.0,
                            Seq::<char>::empty(),
                        );
                    assert(table[i].0 != table[table.len() - 1].0);
                }
            }
        }
        if resolved(table) {
            assert(resolved(front)) by {
                assert forall|i: int| 0 <= i < front.len() implies (#[trigger] front[i]).1.len()
                    > 0 by {
                    assert(table[i].1.len() > 0);
                }
            }
            assert(table[table.len() - 1].1.len() > 0);
        }
        if unresolved(table).len() == 0 {
            assert forall|i: int| 0 <= i < table.len() implies (#[trigger] table[i]).1.len()
                > 0 by {
                if i < front.len() {
                    assert(front[i].1.len() > 0);
                }
            }
        }
    }
}

/// Storing pairs loses no phrase and moves none; the table grows only by
/// phrases that it did not know.
pub proof fn lemma_stored_keeps_phrases(table: Table, pairs: Table)
    ensures
        table.len() <= stored(table, pairs).len(),
        forall|i: int|
            0 <= i < table.len() ==> (#[trigger] stored(table, pairs)[i]).0 == table[i].0,
        forall|phrase: Seq<char>|
            knows(table, phrase) ==> #[trigger] knows(stored(table, pairs), phrase),
        (forall|i: int| 0 <= i < pairs.len() ==> knows(table, (#[trigger] pairs[i]).0))
            ==> stored(table, pairs).len() == table.len(),
    decreases pairs.len(),
{
    let after = stored(table, pairs);
    if pairs.len() > 0 {
        let front = pairs.drop_last();
        let last = pairs.last();
        let before = stored(table, front);
        lemma_stored_keeps_phrases(table, front);
        lemma_put(before, last.0, last.1);
        assert forall|i: int| 0 <= i < table.len() implies (#[trigger] after[i]).0
            == table[i].0 by {
            assert(before[i].0 == table[i].0);
        }
        if forall|i: int| 0 <= i < pairs.len() ==> knows(table, (#[trigger] pairs[i]).0) {
            assert forall|i: int| 0 <= i < front.len() implies knows(
                table,
                (#[trigger] front[i]).0,
            ) by {
                assert(knows(table, pairs[i].0));
            }
            assert(knows(table, pairs[pairs.len() - 1].0));
            assert(knows(before, last.0));
        }
    }
    assert forall|phrase: Seq<char>| knows(table, phrase) implies #[trigger] knows(
        after,
        phrase,
    ) by {
        lemma_known_stays_known(table, after, phrase);
    }
}

/// After pairs with distinct phrases were stored, each of their phrases has
/// its translation and every other phrase has what it had. A table without
/// repeated phrases stays one.
pub proof fn lemma_stored(table: Table, pairs: Table)
    requires
        distinct_keys(pairs),
    ensures
        forall|i: int|
            0 <= i < pairs.len() ==> lookup(stored(table, pairs), (#[trigger] pairs[i]).0) == Some(
                pairs[i].1,
            ),
        forall|phrase: Seq<char>|
            is_absent(pairs, phrase) ==> #[trigger] lookup(stored(table, pairs), phrase) == lookup(
                table,
                phrase,
            ),
        distinct_keys(table) ==> distinct_keys(stored(table, pairs)),
    decreases pairs.len(),
{
    if pairs.len() > 0 {
        let front = pairs.drop_last();
        let last = pairs.last();
        let before = stored(table, front);
        let after = stored(table, pairs);
        assert(distinct_keys(front)) by {
            assert forall|i: int, j: int| 0 <= i < j < front.len() implies (
            #[trigger] front[i]).0 != (#[trigger] front[j]).0 by {
                assert(pairs[i].0 != pairs[j].0);
            }
        }
        lemma_stored(table, front);
        lemma_put(before, last.0, last.1);
        assert forall|i: int| 0 <= i < pairs.len() implies lookup(after, (#[trigger] pairs[i]).0)
            == Some(pairs[i].1) by {
            if i < front.len() {
                assert(front[i] == pairs[i]);
                assert(pairs[i].0 != pairs[pairs.len() - 1].0);
            }
        }
        assert forall|phrase: Seq<char>| is_absent(pairs, phrase) implies #[trigger] lookup(
            after,
            phrase,
        ) == lookup(table, phrase) by {
            assert(pairs[pairs.len() - 1].0 != phrase);
            assert(is_absent(front, phrase)) by {
                assert forall|j: int| 0 <= j < front.len() implies (#[trigger] front[j]).0
                    != phrase by {
                    assert(pairs[j].0 != phrase);
                }
            }
        }
    }
}

/// A table that grew out of another without moving its phrases knows what
/// the other knew.
pub proof fn lemma_known_stays_known(table: Table, grown: Table, phrase: Seq<char>)
    requires
        table.len() <= grown.len(),
        forall|i: int| 0 <= i < table.len() ==> (#[trigger] grown[i]).0 == table[i].0,
        knows(table, phrase),
    ensures
        knows(grown, phrase),
        first_index(grown, phrase) == first_index(table, phrase),
{
    lemma_first_index(table, phrase);
    let i = first_index(table, phrase)->Some_0;
    assert(is_first(grown, phrase, i)) by {
        assert(grown[i].0 == table[i].0);
        assert forall|j: int| 0 <= j < i implies (#[trigger] grown[j]).0 != phrase by {
            assert(table[j].0 != phrase);
        }
    }
    lemma_first_index_found(grown, phrase, i);
}

/// Storing a translation that is not empty leaves a resolved table resolved.
pub proof fn lemma_put_keeps_resolved(table: Table, phrase: Seq<char>, translation: Seq<char>)
    requires
        resolved(table),
        translation.len() > 0,
    ensures
        resolved(put(table, phrase, translation)),
{
    lemma_first_index(table, phrase);
    let after = put(table, phrase, translation);
    assert forall|i: int| 0 <= i < after.len() implies (#[trigger] after[i]).1.len() > 0 by {
        if i < table.len() && after[i] != (phrase, translation) {
            assert(table[i].1.len() > 0);
        }
    }
}

/// The pairs that a run of stored entries stands for.
pub open spec fn pairs_view(entries: Seq<(String, String)>) -> Table {
    Seq::new(entries.len(), |i: int| (entries[i].0@, entries[i].1@))
}

/// Each distinct phrase with its translation.
#[derive(Debug, PartialEq)]
pub struct PhraseMap {
    entries: Vec<(String, String)>,
}

impl View for PhraseMap {
    type V = Table;

    closed spec fn view(&self) -> Table {
        pairs_view(self.entries@)
    }
}

impl Clone for PhraseMap {
    /// A copy with the same phrases and translations.
    fn clone(&self) -> (copy: PhraseMap)
        ensures
            copy@ == self@,
    {
        proof {
            use_type_invariant(self);
        }
        let mut entries: Vec<(String, String)> = Vec::new();
        let mut i: usize = 0;
        while i < self.entries.len()
            invariant
                i <= self.entries.len(),
                pairs_view(entries@) =~= self@.take(i as int),
            decreases self.entries.len() - i,
        {
            let ghost before = pairs_view(entries@);
            entries.push((self.entries[i].0.clone(), self.entries[i].1.clone()));
            assert(pairs_view(entries@) =~= before.push(self@[i as int]));
            i += 1;
        }
        assert(self@.take(i as int) =~= self@);
        PhraseMap { entries }
    }
}

impl PhraseMap {
    /// No phrase occurs twice. This holds of every phrase map.
    #[verifier::type_invariant]
    pub open spec fn unique(self) -> bool {
        distinct_keys(self@)
    }

    /// An empty map.
    pub fn new() -> (map: PhraseMap)
        ensures
            map@ == Seq::<(Seq<char>, Seq<char>)>::empty(),
            distinct_keys(map@),
    {
        let map = PhraseMap { entries: Vec::new() };
        assert(map@ =~= Seq::empty());
        map
    }

    /// Number of distinct phrases.
    pub fn len(&self) -> (n: usize)
        ensures
            n == self@.len(),
    {
        self.entries.len()
    }

    fn find(&self, phrase: &String) -> (found: Option<usize>)
        ensures
            match found {
                Some(i) => first_index(self@, phrase@) == Some(i as int),
                None => first_index(self@, phrase@) is None,
            },
    {
        let ghost table = self@;
        let mut i: usize = 0;
        while i < self.entries.len()
            invariant
                i <= self.entries.len(),
                table == self@,
                forall|j: int| 0 <= j < i ==> (#[trigger] table[j]).0 != phrase@,
            decreases self.entries.len() - i,
        {
            if self.entries[i].0 == *phrase {
                proof {
                    assert(is_first(table, phrase@, i as int));
                    lemma_first_index_found(table, phrase@, i as int);
                }
                return Some(i);
            }
            i += 1;
        }
        proof {
            assert(is_absent(table, phrase@));
            lemma_first_index_absent(table, phrase@);
        }
        None
    }

    /// The translation stored under `phrase`.
    pub fn get(&self, phrase: &String) -> (translation: Option<&String>)
        ensures
            match translation {
                Some(t) => lookup(self@, phrase@) == Some(t@),
                None => lookup(self@, phrase@) is None,
            },
    {
        match self.find(phrase) {
            Some(i) => Some(&self.entries[i].1),
            None => None,
        }
    }

    /// Moves the entries out and leaves the map empty.
    fn take_entries(&mut self) -> (entries: Vec<(String, String)>)
        ensures
            pairs_view(entries@) == old(self)@,
            distinct_keys(pairs_view(entries@)),
    {
        proof {
            use_type_invariant(&*self);
        }
        let mut taken = PhraseMap { entries: Vec::new() };
        core::mem::swap(self, &mut taken);
        taken.entries
    }

    /// Stores `translation` under `phrase`.
    pub fn insert(&mut self, phrase: String, translation: String)
        ensures
            final(self)@ == put(old(self)@, phrase@, translation@),
            distinct_keys(final(self)@),
    {
        let found = self.find(&phrase);
        let mut entries = self.take_entries();
        proof {
            lemma_first_index(pairs_view(entries@), phrase@);
        }
        match found {
            Some(i) => {
                entries.set(i, (phrase, translation));
            },
            None => {
                entries.push((phrase, translation));
            },
        }
        assert(pairs_view(entries@) =~= put(old(self)@, phrase@, translation@));
        *self = PhraseMap { entries };
    }

    /// Takes note of one occurrence of `phrase`, with the string that the
    /// target holds in its place, if it holds one.
    pub fn record(&mut self, phrase: &String, existing: Option<&String>)
        ensures
            final(self)@ == record(old(self)@, phrase@, existing.deep_view()),
            distinct_keys(final(self)@),
    {
        proof {
            use_type_invariant(&*self);
        }
        match existing {
            Some(translation) if !translation.as_str().is_empty() => {
                self.insert(phrase.clone(), translation.clone());
            },
            _ => {
                if self.find(phrase).is_none() {
                    self.insert(phrase.clone(), String::new());
                }
            },
        }
    }

    /// The phrases without a translation, in the order in which they were
    /// first recorded.
    pub fn unresolved(&self) -> (phrases: Vec<String>)
        ensures
            phrases.deep_view() == unresolved(self@),
            phrases.deep_view().no_duplicates(),
    {
        proof {
            use_type_invariant(self);
            lemma_unresolved(self@);
        }
        let mut phrases: Vec<String> = Vec::new();
        let mut i: usize = 0;
        assert(self@.take(0) =~= Seq::empty());
        while i < self.entries.len()
            invariant
                i <= self.entries.len(),
                phrases.deep_view() =~= unresolved(self@.take(i as int)),
            decreases self.entries.len() - i,
        {
            let ghost before = phrases.deep_view();
            assert(self@.take(i + 1).drop_last() =~= self@.take(i as int));
            if self.entries[i].1.as_str().is_empty() {
                phrases.push(self.entries[i].0.clone());
                assert(phrases.deep_view() =~= before.push(self@[i as int].0));
            }
            i += 1;
        }
        assert(self@.take(i as int) =~= self@);
        phrases
    }

    /// Stores each pair of `pairs`, in order.
    pub fn store(&mut self, pairs: &Vec<(String, String)>)
        ensures
            final(self)@ == stored(old(self)@, pairs_view(pairs@)),
            distinct_keys(final(self)@),
    {
        proof {
            use_type_invariant(&*self);
        }
        let ghost all = pairs_view(pairs@);
        let mut i: usize = 0;
        assert(all.take(0) =~= Seq::empty());
        while i < pairs.len()
            invariant
                i <= pairs.len(),
                all == pairs_view(pairs@),
                self@ == stored(old(self)@, all.take(i as int)),
                distinct_keys(self@),
            decreases pairs.len() - i,
        {
            assert(all.take(i + 1).drop_last() =~= all.take(i as int));
            self.insert(pairs[i].0.clone(), pairs[i].1.clone());
            i += 1;
        }
        assert(all.take(i as int) =~= all);
    }
}

} // verus!
