//! A second run over the result of a first one finds nothing to translate.

use crate::assoc::{
    first_index, is_first, lemma_first_index, lemma_first_index_found, lemma_lookup_after_remove,
    lookup,
};
use crate::batch::batches_of;
use crate::collect::{collect, gathered, lemma_collect_in_parts, note, text_of};
use crate::document::{children_of, Tree};
use crate::laws::merge::{lemma_entries_keep_source_order, lemma_merge_is_idempotent};
use crate::phrases::{lemma_put_keeps_resolved, lemma_unresolved, resolved, unresolved, Table};
use crate::rebuild::{merged, merged_entries};
use crate::walker::{visits, visits_below, VisitView};
use vstd::prelude::*;

verus! {

/// Every text of `source` has a text that is not empty in its place in
/// `counterpart`, where places are found as the traversal finds them.
pub open spec fn answered(source: Tree, counterpart: Option<Tree>) -> bool
    decreases source,
{
    match source {
        Tree::Container(entries) => forall|i: int|
            0 <= i < entries.len() ==> answered(
                (#[trigger] entries[i]).1,
                lookup(children_of(counterpart), entries[i].0),
            ),
        Tree::Text(_) => counterpart matches Some(Tree::Text(text)) && text.len() > 0,
        Tree::Opaque(_) => true,
    }
}

/// Wherever `target` holds anything in the place of a text of `source`, it
/// is a text that is not empty.
pub open spec fn agrees(source: Tree, target: Option<Tree>) -> bool
    decreases source,
{
    match source {
        Tree::Container(entries) => forall|i: int|
            0 <= i < entries.len() ==> agrees(
                (#[trigger] entries[i]).1,
                lookup(children_of(target), entries[i].0),
            ),
        Tree::Text(_) => target is Some ==> (target matches Some(Tree::Text(text)) && text.len()
            > 0),
        Tree::Opaque(_) => true,
    }
}

/// After a merge with a phrase map that is resolved, into a target that
/// agrees with the source, every text of the source has its answer in the
/// result.
pub proof fn lemma_merged_is_answered(source: Tree, target: Option<Tree>, table: Table)
    requires
        source.well_formed(),
        agrees(source, target),
        resolved(table),
        merged(source, target, table) is Ok,
    ensures
        answered(source, Some(merged(source, target, table)->Ok_0)),
    decreases source, 0nat,
{
    match source {
        Tree::Container(entries) => {
            let out = merged_entries(entries, 0, children_of(target), table)->Ok_0;
            lemma_merged_entries_are_answered(entries, 0, children_of(target), table);
            lemma_entries_keep_source_order(entries, 0, children_of(target), table);
            assert forall|i: int| 0 <= i < entries.len() implies answered(
                (#[trigger] entries[i]).1,
                lookup(out, entries[i].0),
            ) by {
                assert(is_first(out, entries[i].0, i)) by {
                    assert forall|j: int| 0 <= j < i implies (#[trigger] out[j]).0
                        != entries[i].0 by {
                        assert(entries[j].0 != entries[i].0);
                    }
                }
                lemma_first_index_found(out, entries[i].0, i);
            }
        },
        Tree::Text(phrase) => {
            if target is None {
                lemma_first_index(table, phrase);
            }
        },
        Tree::Opaque(_) => {},
    }
}

/// The same, entry for entry, from position `from` on.
pub proof fn lemma_merged_entries_are_answered(
    entries: Seq<(Seq<char>, Tree)>,
    from: nat,
    remaining: Seq<(Seq<char>, Tree)>,
    table: Table,
)
    requires
        from <= entries.len(),
        Tree::Container(entries).well_formed(),
        forall|i: int|
            from <= i < entries.len() ==> agrees(
                (#[trigger] entries[i]).1,
                lookup(remaining, entries[i].0),
            ),
        resolved(table),
        merged_entries(entries, from, remaining, table) is Ok,
    ensures
        forall|i: int|
            from <= i < entries.len() ==> answered(
                (#[trigger] entries[i]).1,
                Some(merged_entries(entries, from, remaining, table)->Ok_0[i - from].1),
            ),
    decreases entries, entries.len() - from,
{
    if from < entries.len() {
        let key = entries[from as int].0;
        let (existing, rest) = match first_index(remaining, key) {
            Some(j) => (Some(remaining[j].1), remaining.remove(j)),
            None => (None, remaining),
        };
        lemma_first_index(remaining, key);
        assert(existing == lookup(remaining, key));
        assert(agrees(entries[from as int].1, existing));
        lemma_merged_is_answered(entries[from as int].1, existing, table);
        assert forall|i: int| from + 1 <= i < entries.len() implies agrees(
            (#[trigger] entries[i]).1,
            lookup(rest, entries[i].0),
        ) by {
            assert(entries[from as int].0 != entries[i].0);
            assert(agrees(entries[i].1, lookup(remaining, entries[i].0)));
            if first_index(remaining, key) is Some {
                lemma_lookup_after_remove(
                    remaining,
                    first_index(remaining, key)->Some_0,
                    entries[i].0,
                );
            }
        }
        lemma_merged_entries_are_answered(entries, from + 1, rest, table);
        lemma_entries_keep_source_order(entries, from + 1, rest, table);
        let tail = merged_entries(entries, from + 1, rest, table)->Ok_0;
        let out = merged_entries(entries, from, remaining, table)->Ok_0;
        assert forall|i: int| from <= i < entries.len() implies answered(
            (#[trigger] entries[i]).1,
            Some(out[i - from].1),
        ) by {
            if i > from {
                assert(out[i - from] == tail[i - (from + 1)]);
            }
        }
    }
}

/// Collected beside a document that answers every text, a resolved table
/// stays resolved: nothing is left to translate.
pub proof fn lemma_answered_texts_are_resolved(
    node: Tree,
    key: Option<Seq<char>>,
    index: nat,
    counterpart: Option<Tree>,
    table: Table,
)
    requires
        answered(node, counterpart),
        resolved(table),
    ensures
        resolved(collect(visits(node, key, index, counterpart), table)),
    decreases node, 0nat,
{
    let here = seq![VisitView { key, index, node, counterpart }];
    let below = match node {
        Tree::Container(entries) => visits_below(entries, 0, children_of(counterpart)),
        _ => Seq::empty(),
    };
    lemma_collect_in_parts(here, below, table);
    assert(here.drop_last() =~= Seq::empty());
    assert(collect(here.drop_last(), table) == table);
    assert(collect(here, table) == note(table, here[0]));
    match node {
        Tree::Container(entries) => {
            lemma_answered_entries_are_resolved(entries, 0, children_of(counterpart), table);
        },
        Tree::Text(phrase) => {
            lemma_put_keeps_resolved(table, phrase, text_of(counterpart)->Some_0);
        },
        Tree::Opaque(_) => {},
    }
}

/// The same for the entries from position `from` on.
pub proof fn lemma_answered_entries_are_resolved(
    entries: Seq<(Seq<char>, Tree)>,
    from: nat,
    peers: Seq<(Seq<char>, Tree)>,
    table: Table,
)
    requires
        forall|i: int|
            from <= i < entries.len() ==> answered(
                (#[trigger] entries[i]).1,
                lookup(peers, entries[i].0),
            ),
        resolved(table),
    ensures
        resolved(collect(visits_below(entries, from, peers), table)),
    decreases entries, entries.len() - from,
{
    if from < entries.len() {
        let child = entries[from as int];
        let first = visits(child.1, Some(child.0), from, lookup(peers, child.0));
        let rest = visits_below(entries, from + 1, peers);
        lemma_collect_in_parts(first, rest, table);
        lemma_answered_texts_are_resolved(
            child.1,
            Some(child.0),
            from,
            lookup(peers, child.0),
            table,
        );
        lemma_answered_entries_are_resolved(entries, from + 1, peers, collect(first, table));
    }
}

/// A second run asks for nothing. When a well-formed source was merged with
/// a resolved phrase map into a target that agrees with it, collecting the
/// same source beside the result leaves no phrase unresolved, so no batch
/// goes out; and the merge gives the result back unchanged.
pub proof fn lemma_second_run_asks_nothing(
    source: Tree,
    target: Option<Tree>,
    table: Table,
    start: Table,
)
    requires
        source.well_formed(),
        agrees(source, target),
        resolved(table),
        resolved(start),
        merged(source, target, table) is Ok,
    ensures
        ({
            let first = merged(source, target, table)->Ok_0;
            let second = gathered(source, first, start);
            &&& resolved(second)
            &&& unresolved(second).len() == 0
            &&& batches_of(unresolved(second)).len() == 0
            &&& merged(source, Some(first), second) == Ok::<Tree, Seq<char>>(first)
        }),
{
    let first = merged(source, target, table)->Ok_0;
    lemma_merged_is_answered(source, target, table);
    lemma_answered_texts_are_resolved(source, None, 0, Some(first), start);
    lemma_unresolved(gathered(source, first, start));
    lemma_merge_is_idempotent(source, target, table, gathered(source, first, start));
}

} // verus!
