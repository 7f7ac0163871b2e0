//! Writing translations into a target document in the shape of the source.

use crate::assoc::{first_index, lemma_first_index, lookup};
use crate::document::{children_of, entries_view, find_entry, Document, Entry, Tree};
use crate::laws::merge::{lemma_merge_keeps_well_formed, lemma_merge_succeeds_exactly};
use crate::phrases::{knows, PhraseMap, Table};
use vstd::prelude::*;

verus! {

/// A text of the source has no entry in the phrase map: the map was not
/// made from this source.
#[derive(Debug, PartialEq)]
pub struct LookupInvariantViolation {
    /// The phrase that the map does not know.
    pub phrase: String,
}

/// What becomes of `target` when it is brought into the shape of `source`;
/// the error is the first phrase, in document order, that was needed and
/// that `table` does not know.
///
/// A value that the target holds in the place of a leaf stays as it is. A
/// missing text is filled with its translation, any other missing leaf with
/// a copy of the source's. In the place of a container stands a container,
/// whatever the target held there.
pub open spec fn merged(source: Tree, target: Option<Tree>, table: Table) -> Result<
    Tree,
    Seq<char>,
>
    decreases source, 0nat,
{
    match source {
        Tree::Container(entries) => match merged_entries(entries, 0, children_of(target), table) {
            Ok(pairs) => Ok(Tree::Container(pairs)),
            Err(phrase) => Err(phrase),
        },
        Tree::Text(phrase) => match target {
            Some(existing) => Ok(existing),
            None => match lookup(table, phrase) {
                Some(translation) => Ok(Tree::Text(translation)),
                None => Err(phrase),
            },
        },
        Tree::Opaque(_) => match target {
            Some(existing) => Ok(existing),
            None => Ok(source),
        },
    }
}

/// The entries of a merged container from position `from` of the source on:
/// one entry for each entry of the source, in the source's order, and behind
/// them what is left of the target's entries, in their own order.
///
/// Each entry of the source takes the first entry under its key out of
/// `remaining` and is merged with its value.
pub open spec fn merged_entries(
    entries: Seq<(Seq<char>, Tree)>,
    from: nat,
    remaining: Seq<(Seq<char>, Tree)>,
    table: Table,
) -> Result<Seq<(Seq<char>, Tree)>, Seq<char>>
    decreases entries, entries.len() - from,
{
    if from >= entries.len() {
        Ok(remaining)
    } else {
        let key = entries[from as int].0;
        let (existing, rest) = match first_index(remaining, key) {
            Some(j) => (Some(remaining[j].1), remaining.remove(j)),
            None => (None, remaining),
        };
        match merged(entries[from as int].1, existing, table) {
            Err(phrase) => Err(phrase),
            Ok(value) => match merged_entries(entries, from + 1, rest, table) {
                Err(phrase) => Err(phrase),
                Ok(tail) => Ok(seq![(key, value)] + tail),
            },
        }
    }
}

/// The merge asks for `phrase`: it is a text of the source in whose place
/// the target holds nothing.
pub open spec fn needs(source: Tree, target: Option<Tree>, phrase: Seq<char>) -> bool
    decreases source,
{
    match source {
        Tree::Container(entries) => exists|i: int|
            0 <= i < entries.len() && needs(
                (#[trigger] entries[i]).1,
                lookup(children_of(target), entries[i].0),
                phrase,
            ),
        Tree::Text(text) => target is None && text == phrase,
        Tree::Opaque(_) => false,
    }
}

/// `tail` behind `head`, or the error that stands in its place.
pub open spec fn behind(
    head: Seq<(Seq<char>, Tree)>,
    tail: Result<Seq<(Seq<char>, Tree)>, Seq<char>>,
) -> Result<Seq<(Seq<char>, Tree)>, Seq<char>> {
    match tail {
        Ok(pairs) => Ok(head + pairs),
        Err(phrase) => Err(phrase),
    }
}

/// The model of a document that may be missing.
pub open spec fn tree_of(document: Option<Document>) -> Option<Tree> {
    match document {
        Some(d) => Some(d@),
        None => None,
    }
}

/// What a merge returned, as its model.
pub open spec fn outcome_view(outcome: Result<Document, LookupInvariantViolation>) -> Result<
    Tree,
    Seq<char>,
> {
    match outcome {
        Ok(document) => Ok(document@),
        Err(violation) => Err(violation.phrase@),
    }
}

/// The entries of the container in a target's place. Where the target holds
/// no container there, whatever it holds is given up for an empty one.
fn container_entries(target: Option<Document>) -> (entries: Vec<Entry>)
    ensures
        entries_view(entries@) == children_of(tree_of(target)),
{
    let entries = match target {
        Some(Document::Container(existing)) => existing,
        _ => Vec::new(),
    };
    assert(entries_view(entries@) =~= children_of(tree_of(target)));
    entries
}

fn merge(
    source: &Document,
    target: Option<Document>,
    translations: &PhraseMap,
) -> (outcome: Result<Document, LookupInvariantViolation>)
    ensures
        outcome_view(outcome) == merged(source@, tree_of(target), translations@),
    decreases source,
{
    match source {
        Document::Container(entries) => {
            let ghost pairs = entries_view(entries@);
            let ghost table = translations@;
            let mut remaining = container_entries(target);
            let ghost all = merged_entries(pairs, 0, children_of(tree_of(target)), table);
            let mut out: Vec<Entry> = Vec::new();
            let mut i: usize = 0;
            assert(Seq::<(Seq<char>, Tree)>::empty() + all->Ok_0 =~= all->Ok_0);
            while i < entries.len()
                invariant
                    i <= entries.len(),
                    *source == Document::Container(*entries),
                    pairs == entries_view(entries@),
                    table == translations@,
                    all == merged_entries(pairs, 0, children_of(tree_of(target)), table),
                    all == behind(
                        entries_view(out@),
                        merged_entries(pairs, i as nat, entries_view(remaining@), table),
                    ),
                decreases entries.len() - i,
            {
                let entry = &entries[i];
                let ghost left = entries_view(remaining@);
                let ghost head = entries_view(out@);
                proof {
                    lemma_first_index(left, entry.key@);
                }
                let existing = match find_entry(&remaining, &entry.key) {
                    Some(j) => {
                        let taken = remaining.remove(j);
                        assert(entries_view(remaining@) =~= left.remove(j as int));
                        Some(taken.value)
                    },
                    None => None,
                };
                assert(source->Container_0 == *entries);
                match merge(&entry.value, existing, translations) {
                    Ok(value) => {
                        out.push(Entry { key: entry.key.clone(), value });
                        proof {
                            let rest = merged_entries(
                                pairs,
                                (i + 1) as nat,
                                entries_view(remaining@),
                                table,
                            );
                            assert(entries_view(out@) =~= head.push((entry.key@, value@)));
                            if rest is Ok {
                                assert(head + (seq![(entry.key@, value@)] + rest->Ok_0)
                                    =~= head.push((entry.key@, value@)) + rest->Ok_0);
                            }
                        }
                    },
                    Err(violation) => {
                        assert(merged_entries(pairs, i as nat, left, table) == Err::<
                            Seq<(Seq<char>, Tree)>,
                            Seq<char>,
                        >(violation.phrase@));
                        return Err(violation);
                    },
                }
                i += 1;
            }
            let ghost head = entries_view(out@);
            let ghost tail = entries_view(remaining@);
            out.append(&mut remaining);
            assert(entries_view(out@) =~= head + tail);
            Ok(Document::Container(out))
        },
        Document::Text(phrase) => match target {
            Some(existing) => Ok(existing),
            None => match translations.get(phrase) {
                Some(translation) => Ok(Document::Text(translation.clone())),
                None => Err(LookupInvariantViolation { phrase: phrase.clone() }),
            },
        },
        Document::Opaque(value) => match target {
            Some(existing) => Ok(existing),
            None => Ok(Document::Opaque(value.clone())),
        },
    }
}

/// Brings `target` into the shape of `source`: every entry of the source
/// gets its place, in the source's order; what the target already holds in
/// the place of a leaf is kept; a missing text is filled from
/// `translations`, any other missing leaf is copied from the source.
/// Entries that only the target has follow behind, in their own order.
///
/// Fails without a result on the first text that needs a translation and
/// has none in `translations`. For a well-formed source that is the only
/// way to fail, and well-formed documents give a well-formed result.
pub fn apply_translations(
    source: &Document,
    target: Document,
    translations: &PhraseMap,
) -> (outcome: Result<Document, LookupInvariantViolation>)
    ensures
        outcome_view(outcome) == merged(source@, Some(target@), translations@),
        source@.well_formed() ==> (outcome is Ok <==> forall|phrase: Seq<char>| #[trigger]
            needs(source@, Some(target@), phrase) ==> knows(translations@, phrase)),
        source@.well_formed() && target@.well_formed() ==> (outcome matches Ok(document)
            ==> document@.well_formed()),
{
    proof {
        let after = merged(source@, Some(target@), translations@);
        if source@.well_formed() {
            lemma_merge_succeeds_exactly(source@, Some(target@), translations@);
            if target@.well_formed() && after is Ok {
                lemma_merge_keeps_well_formed(source@, Some(target@), translations@);
            }
        }
    }
    merge(source, Some(target), translations)
}

} // verus!
