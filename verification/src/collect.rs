//! Finding the phrases of a source document and what is known of their
//! translations.

use crate::assoc::distinct_keys;
use crate::document::{children_of, Document, Tree};
use crate::phrases::{knows, lemma_record, record, PhraseMap, Table};
use crate::walker::{visits, visits_below, visits_view, walk, VisitView};
use vstd::prelude::*;

verus! {

/// The string of a node that may be missing; none unless it is a text.
pub open spec fn text_of(node: Option<Tree>) -> Option<Seq<char>> {
    match node {
        Some(Tree::Text(s)) => Some(s),
        _ => None,
    }
}

/// The table after one visit: a text is recorded with the text that stands
/// in its place, any other node changes nothing.
pub open spec fn note(table: Table, visit: VisitView) -> Table {
    match visit.node {
        Tree::Text(phrase) => record(table, phrase, text_of(visit.counterpart)),
        _ => table,
    }
}

/// The table after the visits in `found`, taken in order.
pub open spec fn collect(found: Seq<VisitView>, table: Table) -> Table
    decreases found.len(),
{
    if found.len() == 0 {
        table
    } else {
        note(collect(found.drop_last(), table), found.last())
    }
}

/// The table after every text of `source` was recorded beside `target`.
pub open spec fn gathered(source: Tree, target: Tree, table: Table) -> Table {
    collect(visits(source, None, 0, Some(target)), table)
}

/// Visits may be collected in two parts.
pub proof fn lemma_collect_in_parts(first: Seq<VisitView>, second: Seq<VisitView>, table: Table)
    ensures
        collect(first + second, table) == collect(second, collect(first, table)),
    decreases second.len(),
{
    if second.len() == 0 {
        assert(first + second =~= first);
    } else {
        assert((first + second).drop_last() =~= first + second.drop_last());
        lemma_collect_in_parts(first, second.drop_last(), table);
    }
}

/// Collecting forgets nothing and repeats no phrase.
pub proof fn lemma_collect_keeps(found: Seq<VisitView>, table: Table)
    ensures
        forall|phrase: Seq<char>|
            knows(table, phrase) ==> #[trigger] knows(collect(found, table), phrase),
        distinct_keys(table) ==> distinct_keys(collect(found, table)),
    decreases found.len(),
{
    if found.len() > 0 {
        let before = collect(found.drop_last(), table);
        lemma_collect_keeps(found.drop_last(), table);
        match found.last().node {
            Tree::Text(text) => {
                lemma_record(before, text, text_of(found.last().counterpart));
                assert forall|phrase: Seq<char>| knows(table, phrase) implies #[trigger] knows(
                    collect(found, table),
                    phrase,
                ) by {
                    assert(knows(before, phrase));
                    if phrase != text {
                        assert(crate::assoc::lookup(collect(found, table), phrase)
                            == crate::assoc::lookup(before, phrase));
                    }
                }
            },
            _ => {},
        }
    }
}

/// Every text of a node is known once the node's visits are collected.
pub proof fn lemma_collected_texts_are_known(
    node: Tree,
    key: Option<Seq<char>>,
    index: nat,
    counterpart: Option<Tree>,
    table: Table,
    phrase: Seq<char>,
)
    requires
        node.mentions(phrase) || knows(table, phrase),
    ensures
        knows(collect(visits(node, key, index, counterpart), table), phrase),
    decreases node, 0nat,
{
    let here = seq![VisitView { key, index, node, counterpart }];
    let below = match node {
        Tree::Container(entries) => visits_below(entries, 0, children_of(counterpart)),
        _ => Seq::empty(),
    };
    lemma_collect_in_parts(here, below, table);
    assert(here.drop_last() =~= Seq::empty());
    assert(collect(here.drop_last(), table) == table);
    assert(collect(here, table) == note(table, here[0]));
    match node {
        Tree::Container(entries) => {
            lemma_collected_entries_are_known(entries, 0, children_of(counterpart), table, phrase);
        },
        Tree::Text(text) => {
            lemma_collect_keeps(here, table);
            lemma_record(table, text, text_of(counterpart));
        },
        Tree::Opaque(_) => {},
    }
}

/// Every text below the entries from `from` on is known once their visits
/// are collected.
pub proof fn lemma_collected_entries_are_known(
    entries: Seq<(Seq<char>, Tree)>,
    from: nat,
    peers: Seq<(Seq<char>, Tree)>,
    table: Table,
    phrase: Seq<char>,
)
    requires
        knows(table, phrase) || exists|i: int|
            from <= i < entries.len() && (#[trigger] entries[i]).1.mentions(phrase),
    ensures
        knows(collect(visits_below(entries, from, peers), table), phrase),
    decreases entries, entries.len() - from,
{
    if from < entries.len() {
        let child = entries[from as int];
        let first = visits(child.1, Some(child.0), from, crate::assoc::lookup(peers, child.0));
        let rest = visits_below(entries, from + 1, peers);
        lemma_collect_in_parts(first, rest, table);
        let middle = collect(first, table);
        if knows(table, phrase) || child.1.mentions(phrase) {
            lemma_collected_texts_are_known(
                child.1,
                Some(child.0),
                from,
                crate::assoc::lookup(peers, child.0),
                table,
                phrase,
            );
        } else {
            let i = choose|i: int|
                from <= i < entries.len() && (#[trigger] entries[i]).1.mentions(phrase);
            assert(from + 1 <= i);
        }
        lemma_collected_entries_are_known(entries, from + 1, peers, middle, phrase);
    }
}

/// The collector leaves no text of the source unknown.
pub proof fn lemma_gathered_knows_every_text(
    source: Tree,
    target: Tree,
    table: Table,
    phrase: Seq<char>,
)
    requires
        source.mentions(phrase),
    ensures
        knows(gathered(source, target, table), phrase),
{
    lemma_collected_texts_are_known(source, None, 0, Some(target), table, phrase);
}

/// Records every text of `source`, in document order, with the translation
/// that `target` already holds in the same place.
///
/// Where `target` has no container in the place of one of `source`, nothing
/// below that place counts as translated.
pub fn gather_translations(source: &Document, target: &Document, translations: &mut PhraseMap)
    ensures
        final(translations)@ == gathered(source@, target@, old(translations)@),
        distinct_keys(final(translations)@),
{
    let found = walk(source, Some(target));
    let ghost all = visits_view(found@);
    let mut i: usize = 0;
    assert(all.take(0) =~= Seq::empty());
    while i < found.len()
        invariant
            i <= found.len(),
            all == visits_view(found@),
            translations@ == collect(all.take(i as int), old(translations)@),
        decreases found.len() - i,
    {
        assert(all.take(i + 1).drop_last() =~= all.take(i as int));
        let visit = &found[i];
        match visit.node {
            Document::Text(phrase) => {
                let existing = match visit.counterpart {
                    Some(Document::Text(translation)) => Some(translation),
                    _ => None,
                };
                translations.record(phrase, existing);
            },
            _ => {},
        }
        i += 1;
    }
    assert(all.take(i as int) =~= all);
    proof {
        use_type_invariant(&*translations);
    }
}

} // verus!
