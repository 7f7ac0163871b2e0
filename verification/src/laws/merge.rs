//! What holds of every merge.

use crate::assoc::{
    distinct_keys, first_index, is_absent, is_first, keys_of, lemma_first_index,
    lemma_first_index_absent, lemma_first_index_found, lemma_lookup_after_remove,
    lemma_remove_keeps_distinct, lemma_without, lemma_without_agrees, lemma_without_remove, lookup,
    without,
};
use crate::collect::{gathered, lemma_gathered_knows_every_text};
use crate::document::{children_of, Tree};
use crate::driver::DriverView;
use crate::laws::replies::lemma_run_keeps_phrases;
use crate::phrases::{knows, Table};
use crate::rebuild::{merged, merged_entries, needs};
use crate::walker::{visits, visits_below, VisitView};
use vstd::prelude::*;

verus! {

/// A merged document is settled: merging the same source into it again gives
/// it back unchanged, whatever the phrase map holds by then, and needs no
/// translation.
pub proof fn lemma_merge_is_idempotent(
    source: Tree,
    target: Option<Tree>,
    table: Table,
    later: Table,
)
    requires
        merged(source, target, table) is Ok,
    ensures
        merged(source, Some(merged(source, target, table)->Ok_0), later) == merged(
            source,
            target,
            table,
        ),
    decreases source, 0nat,
{
    match source {
        Tree::Container(entries) => {
            lemma_merged_entries_are_settled(entries, 0, children_of(target), table, later);
        },
        _ => {},
    }
}

/// The entries of a merged container, merged again with the same entries of
/// the source, stay as they are.
pub proof fn lemma_merged_entries_are_settled(
    entries: Seq<(Seq<char>, Tree)>,
    from: nat,
    remaining: Seq<(Seq<char>, Tree)>,
    table: Table,
    later: Table,
)
    requires
        merged_entries(entries, from, remaining, table) is Ok,
    ensures
        merged_entries(entries, from, merged_entries(entries, from, remaining, table)->Ok_0, later)
            == merged_entries(entries, from, remaining, table),
    decreases entries, entries.len() - from,
{
    if from < entries.len() {
        let key = entries[from as int].0;
        let (existing, rest) = match first_index(remaining, key) {
            Some(j) => (Some(remaining[j].1), remaining.remove(j)),
            None => (None, remaining),
        };
        let value = merged(entries[from as int].1, existing, table)->Ok_0;
        let tail = merged_entries(entries, from + 1, rest, table)->Ok_0;
        let all = seq![(key, value)] + tail;
        assert(merged_entries(entries, from, remaining, table) == Ok::<_, Seq<char>>(all));
        assert(is_first(all, key, 0));
        lemma_first_index_found(all, key, 0);
        assert(all.remove(0) =~= tail);
        lemma_merge_is_idempotent(entries[from as int].1, existing, table, later);
        lemma_merged_entries_are_settled(entries, from + 1, rest, table, later);
    }
}

/// A merged container holds the keys of the source first, in the order of
/// the source, whatever the target held and in whatever order. A target
/// without entries adds nothing behind them.
pub proof fn lemma_source_order_is_kept(
    entries: Seq<(Seq<char>, Tree)>,
    target: Option<Tree>,
    table: Table,
)
    requires
        merged(Tree::Container(entries), target, table) is Ok,
    ensures
        merged(Tree::Container(entries), target, table)->Ok_0 is Container,
        ({
            let out = merged(Tree::Container(entries), target, table)->Ok_0.children();
            &&& entries.len() <= out.len() <= entries.len() + children_of(target).len()
            &&& forall|i: int| 0 <= i < entries.len() ==> (#[trigger] out[i]).0 == entries[i].0
        }),
{
    lemma_entries_keep_source_order(entries, 0, children_of(target), table);
}

/// The entries merged from position `from` on start with the keys of the
/// source from that position on; behind them stand at most the entries that
/// were left.
pub proof fn lemma_entries_keep_source_order(
    entries: Seq<(Seq<char>, Tree)>,
    from: nat,
    remaining: Seq<(Seq<char>, Tree)>,
    table: Table,
)
    requires
        from <= entries.len(),
        merged_entries(entries, from, remaining, table) is Ok,
    ensures
        ({
            let out = merged_entries(entries, from, remaining, table)->Ok_0;
            &&& entries.len() - from <= out.len() <= entries.len() - from + remaining.len()
            &&& forall|i: int|
                0 <= i < entries.len() - from ==> (#[trigger] out[i]).0 == entries[from + i].0
        }),
    decreases entries.len() - from,
{
    if from < entries.len() {
        let key = entries[from as int].0;
        let rest = match first_index(remaining, key) {
            Some(j) => remaining.remove(j),
            None => remaining,
        };
        crate::assoc::lemma_first_index(remaining, key);
        lemma_entries_keep_source_order(entries, from + 1, rest, table);
        let tail = merged_entries(entries, from + 1, rest, table)->Ok_0;
        let out = merged_entries(entries, from, remaining, table)->Ok_0;
        assert forall|i: int| 0 <= i < entries.len() - from implies (#[trigger] out[i]).0
            == entries[from + i].0 by {
            if i > 0 {
                assert(out[i] == tail[i - 1]);
            }
        }
    }
}

/// The source with each text replaced by its translation: the same keys in
/// the same order at every depth, and every other leaf as it was.
pub open spec fn translated(source: Tree, table: Table) -> Tree
    decreases source,
{
    match source {
        Tree::Container(entries) => Tree::Container(
            Seq::new(
                entries.len(),
                |i: int|
                    if 0 <= i < entries.len() {
                        (entries[i].0, translated(entries[i].1, table))
                    } else {
                        arbitrary()
                    },
            ),
        ),
        Tree::Text(phrase) => Tree::Text(lookup(table, phrase)->Some_0),
        Tree::Opaque(_) => source,
    }
}

/// Merged into nothing, or into a target without entries in the place of a
/// container, the source comes out translated: no key is added, lost or
/// moved, and no value other than a text is changed.
pub proof fn lemma_merge_into_empty_translates(source: Tree, target: Option<Tree>, table: Table)
    requires
        merged(source, target, table) is Ok,
        target is None || (source is Container && children_of(target).len() == 0),
    ensures
        merged(source, target, table) == Ok::<Tree, Seq<char>>(translated(source, table)),
    decreases source, 0nat,
{
    match source {
        Tree::Container(entries) => {
            assert(children_of(target) =~= Seq::empty());
            lemma_entries_into_empty_translate(entries, 0, table);
            assert(merged_entries(entries, 0, Seq::empty(), table)->Ok_0
                =~= translated(source, table).children());
        },
        _ => {},
    }
}

/// Merged into no entries at all, the entries of the source from `from` on
/// come out translated, one for one.
pub proof fn lemma_entries_into_empty_translate(
    entries: Seq<(Seq<char>, Tree)>,
    from: nat,
    table: Table,
)
    requires
        from <= entries.len(),
        merged_entries(entries, from, Seq::empty(), table) is Ok,
    ensures
        ({
            let out = merged_entries(entries, from, Seq::empty(), table)->Ok_0;
            &&& out.len() == entries.len() - from
            &&& forall|i: int|
                0 <= i < out.len() ==> #[trigger] out[i] == (
                    entries[from + i].0,
                    translated(entries[from + i].1, table),
                )
        }),
    decreases entries, entries.len() - from,
{
    if from < entries.len() {
        let key = entries[from as int].0;
        let none = Seq::<(Seq<char>, Tree)>::empty();
        lemma_first_index_absent(none, key);
        lemma_merge_into_empty_translates(entries[from as int].1, None, table);
        lemma_entries_into_empty_translate(entries, from + 1, table);
        let tail = merged_entries(entries, from + 1, none, table)->Ok_0;
        let out = merged_entries(entries, from, none, table)->Ok_0;
        assert forall|i: int| 0 <= i < out.len() implies #[trigger] out[i] == (
            entries[from + i].0,
            translated(entries[from + i].1, table),
        ) by {
            if i > 0 {
                assert(out[i] == tail[i - 1]);
            }
        }
    }
}

/// Entry by entry: where no key occurs twice, each entry of the source is
/// merged with what the target holds under its key, and behind these stand
/// the entries of the target under keys that the source does not have.
pub proof fn lemma_merged_entries_by_key(
    entries: Seq<(Seq<char>, Tree)>,
    from: nat,
    remaining: Seq<(Seq<char>, Tree)>,
    table: Table,
)
    requires
        from <= entries.len(),
        distinct_keys(entries),
        distinct_keys(remaining),
        merged_entries(entries, from, remaining, table) is Ok,
    ensures
        ({
            let out = merged_entries(entries, from, remaining, table)->Ok_0;
            let extras = without(remaining, keys_of(entries).skip(from as int));
            &&& out.len() == entries.len() - from + extras.len()
            &&& forall|i: int|
                from <= i < entries.len() ==> {
                    &&& merged(
                        (#[trigger] entries[i]).1,
                        lookup(remaining, entries[i].0),
                        table,
                    ) is Ok
                    &&& out[i - from] == (
                        entries[i].0,
                        merged(entries[i].1, lookup(remaining, entries[i].0), table)->Ok_0,
                    )
                }
            &&& out.skip(entries.len() - from) == extras
        }),
    decreases entries.len() - from,
{
    let out = merged_entries(entries, from, remaining, table)->Ok_0;
    let keys = keys_of(entries).skip(from as int);
    if from == entries.len() {
        lemma_without(remaining, keys);
        assert(out.skip(0) =~= out);
    } else {
        let key = entries[from as int].0;
        let rest = match first_index(remaining, key) {
            Some(j) => remaining.remove(j),
            None => remaining,
        };
        let fewer = keys_of(entries).skip((from + 1) as int);
        lemma_first_index(remaining, key);
        assert(keys[0] == key);
        assert(keys.contains(key));
        if first_index(remaining, key) is Some {
            let j = first_index(remaining, key)->Some_0;
            lemma_remove_keeps_distinct(remaining, j);
            lemma_without_remove(remaining, j, keys);
        }
        assert(is_absent(rest, key));
        assert forall|i: int| 0 <= i < rest.len() implies (keys.contains((#[trigger] rest[i]).0)
            <==> fewer.contains(rest[i].0)) by {
            let k = rest[i].0;
            if keys.contains(k) {
                let at = choose|at: int| 0 <= at < keys.len() && keys[at] == k;
                assert(at != 0);
                assert(fewer[at - 1] == k);
            }
            if fewer.contains(k) {
                let at = choose|at: int| 0 <= at < fewer.len() && fewer[at] == k;
                assert(keys[at + 1] == k);
            }
        }
        lemma_without_agrees(rest, keys, fewer);
        lemma_merged_entries_by_key(entries, from + 1, rest, table);
        let tail = merged_entries(entries, from + 1, rest, table)->Ok_0;
        assert forall|i: int| from <= i < entries.len() implies {
            &&& merged((#[trigger] entries[i]).1, lookup(remaining, entries[i].0), table) is Ok
            &&& out[i - from] == (
                entries[i].0,
                merged(entries[i].1, lookup(remaining, entries[i].0), table)->Ok_0,
            )
        } by {
            if i > from {
                assert(entries[from as int].0 != entries[i].0);
                if first_index(remaining, key) is Some {
                    lemma_lookup_after_remove(
                        remaining,
                        first_index(remaining, key)->Some_0,
                        entries[i].0,
                    );
                }
                assert(out[i - from] == tail[i - (from + 1)]);
            }
        }
        assert(out.skip(entries.len() - from) =~= tail.skip(entries.len() - (from + 1)));
    }
}

/// A merged container, where neither the source nor the target holds a key
/// twice: the entries of the source in their order, each merged with what
/// the target holds under its key, and behind them the entries of the target
/// under keys that the source does not have, in their order.
pub proof fn lemma_merged_container(
    entries: Seq<(Seq<char>, Tree)>,
    target: Option<Tree>,
    table: Table,
)
    requires
        distinct_keys(entries),
        distinct_keys(children_of(target)),
        merged(Tree::Container(entries), target, table) is Ok,
    ensures
        ({
            let out = merged(Tree::Container(entries), target, table)->Ok_0.children();
            let peers = children_of(target);
            &&& out.len() == entries.len() + without(peers, keys_of(entries)).len()
            &&& forall|i: int|
                0 <= i < entries.len() ==> {
                    &&& merged((#[trigger] entries[i]).1, lookup(peers, entries[i].0), table) is Ok
                    &&& out[i] == (
                        entries[i].0,
                        merged(entries[i].1, lookup(peers, entries[i].0), table)->Ok_0,
                    )
                }
            &&& out.skip(entries.len() as int) == without(peers, keys_of(entries))
        }),
{
    lemma_merged_entries_by_key(entries, 0, children_of(target), table);
    assert(keys_of(entries).skip(0) =~= keys_of(entries));
}

/// A merge keeps documents well formed: where no container of the source or
/// of the target holds a key twice, none of the result does.
pub proof fn lemma_merge_keeps_well_formed(source: Tree, target: Option<Tree>, table: Table)
    requires
        source.well_formed(),
        target matches Some(tree) ==> tree.well_formed(),
        merged(source, target, table) is Ok,
    ensures
        merged(source, target, table)->Ok_0.well_formed(),
    decreases source,
{
    match source {
        Tree::Container(entries) => {
            let peers = children_of(target);
            let keys = keys_of(entries);
            let extras = without(peers, keys);
            let out = merged(source, target, table)->Ok_0.children();
            assert(distinct_keys(peers) && forall|i: int|
                0 <= i < peers.len() ==> (#[trigger] peers[i]).1.well_formed());
            lemma_merged_container(entries, target, table);
            lemma_without(peers, keys);
            assert forall|i: int| 0 <= i < out.len() implies (
            #[trigger] out[i]).1.well_formed() by {
                if i < entries.len() {
                    let peer = lookup(peers, entries[i].0);
                    lemma_first_index(peers, entries[i].0);
                    lemma_merge_keeps_well_formed(entries[i].1, peer, table);
                } else {
                    assert(out[i] == extras[i - entries.len()]);
                    assert(peers.contains(extras[i - entries.len()]));
                    let at = choose|at: int|
                        0 <= at < peers.len() && peers[at] == extras[i - entries.len()];
                    assert(peers[at].1.well_formed());
                }
            }
            assert forall|i: int, j: int| 0 <= i < j < out.len() implies (#[trigger] out[i]).0 != (
            #[trigger] out[j]).0 by {
                if j < entries.len() {
                    assert(entries[i].0 != entries[j].0);
                } else if i < entries.len() {
                    assert(out[j] == extras[j - entries.len()]);
                    assert(!keys.contains(extras[j - entries.len()].0));
                    assert(keys[i] == entries[i].0);
                } else {
                    assert(out[i] == extras[i - entries.len()]);
                    assert(out[j] == extras[j - entries.len()]);
                }
            }
        },
        _ => {},
    }
}

/// A merge fails only on a text of the source that the phrase map does not
/// know.
pub proof fn lemma_missing_phrase_is_a_text(source: Tree, target: Option<Tree>, table: Table)
    requires
        merged(source, target, table) is Err,
    ensures
        source.mentions(merged(source, target, table)->Err_0),
        !knows(table, merged(source, target, table)->Err_0),
    decreases source, 0nat,
{
    match source {
        Tree::Container(entries) => {
            lemma_missing_phrase_is_below(entries, 0, children_of(target), table);
        },
        _ => {},
    }
}

/// Merging entries fails only on a text below one of them that the phrase
/// map does not know.
pub proof fn lemma_missing_phrase_is_below(
    entries: Seq<(Seq<char>, Tree)>,
    from: nat,
    remaining: Seq<(Seq<char>, Tree)>,
    table: Table,
)
    requires
        merged_entries(entries, from, remaining, table) is Err,
    ensures
        exists|i: int|
            from <= i < entries.len() && (#[trigger] entries[i]).1.mentions(
                merged_entries(entries, from, remaining, table)->Err_0,
            ),
        !knows(table, merged_entries(entries, from, remaining, table)->Err_0),
    decreases entries, entries.len() - from,
{
    if from < entries.len() {
        let key = entries[from as int].0;
        let (existing, rest) = match first_index(remaining, key) {
            Some(j) => (Some(remaining[j].1), remaining.remove(j)),
            None => (None, remaining),
        };
        let missing = merged_entries(entries, from, remaining, table)->Err_0;
        if merged(entries[from as int].1, existing, table) is Err {
            lemma_missing_phrase_is_a_text(entries[from as int].1, existing, table);
            assert(entries[from as int].1.mentions(missing));
        } else {
            lemma_missing_phrase_is_below(entries, from + 1, rest, table);
            let i = choose|i: int|
                from + 1 <= i < entries.len() && (#[trigger] entries[i]).1.mentions(missing);
            assert(entries[i].1.mentions(missing));
        }
    }
}

/// When a merge succeeds: exactly when the phrase map knows every phrase
/// that the merge asks for. The phrase that a failed merge names is one that
/// it asks for and that the map does not know.
pub proof fn lemma_merge_succeeds_exactly(source: Tree, target: Option<Tree>, table: Table)
    requires
        source.well_formed(),
    ensures
        merged(source, target, table) is Ok <==> forall|phrase: Seq<char>| #[trigger]
            needs(source, target, phrase) ==> knows(table, phrase),
        merged(source, target, table) matches Err(missing) ==> needs(source, target, missing)
            && !knows(table, missing),
    decreases source, 0nat,
{
    match source {
        Tree::Container(entries) => {
            lemma_entries_merge_exactly(entries, 0, children_of(target), table);
            match merged_entries(entries, 0, children_of(target), table) {
                Ok(_) => {
                    assert forall|phrase: Seq<char>| #[trigger]
                        needs(source, target, phrase) implies knows(table, phrase) by {
                        let i = choose|i: int|
                            0 <= i < entries.len() && needs(
                                (#[trigger] entries[i]).1,
                                lookup(children_of(target), entries[i].0),
                                phrase,
                            );
                        assert(needs(
                            entries[i].1,
                            lookup(children_of(target), entries[i].0),
                            phrase,
                        ));
                    }
                },
                Err(missing) => {
                    assert(needs(source, target, missing));
                },
            }
        },
        Tree::Text(phrase) => {
            if target is None {
                assert(needs(source, target, phrase));
            }
        },
        Tree::Opaque(_) => {},
    }
}

/// The same for the entries from position `from` on.
pub proof fn lemma_entries_merge_exactly(
    entries: Seq<(Seq<char>, Tree)>,
    from: nat,
    remaining: Seq<(Seq<char>, Tree)>,
    table: Table,
)
    requires
        from <= entries.len(),
        Tree::Container(entries).well_formed(),
    ensures
        merged_entries(entries, from, remaining, table) is Ok ==> forall|i: int, phrase: Seq<char>|
            from <= i < entries.len() && #[trigger] needs(
                entries[i].1,
                lookup(remaining, entries[i].0),
                phrase,
            ) ==> knows(table, phrase),
        merged_entries(entries, from, remaining, table) matches Err(missing) ==> !knows(
            table,
            missing,
        ) && exists|i: int|
            from <= i < entries.len() && needs(
                (#[trigger] entries[i]).1,
                lookup(remaining, entries[i].0),
                missing,
            ),
    decreases entries, entries.len() - from,
{
    if from < entries.len() {
        let key = entries[from as int].0;
        let (existing, rest) = match first_index(remaining, key) {
            Some(j) => (Some(remaining[j].1), remaining.remove(j)),
            None => (None, remaining),
        };
        lemma_first_index(remaining, key);
        assert(existing == lookup(remaining, key));
        lemma_merge_succeeds_exactly(entries[from as int].1, existing, table);
        lemma_entries_merge_exactly(entries, from + 1, rest, table);
        assert forall|i: int| from + 1 <= i < entries.len() implies lookup(
            rest,
            (#[trigger] entries[i]).0,
        ) == lookup(remaining, entries[i].0) by {
            assert(entries[from as int].0 != entries[i].0);
            if first_index(remaining, key) is Some {
                lemma_lookup_after_remove(
                    remaining,
                    first_index(remaining, key)->Some_0,
                    entries[i].0,
                );
            }
        }
        match merged(entries[from as int].1, existing, table) {
            Err(missing) => {
                assert(needs(entries[from as int].1, lookup(remaining, key), missing));
            },
            Ok(_) => match merged_entries(entries, from + 1, rest, table) {
                Err(missing) => {
                    let i = choose|i: int|
                        from + 1 <= i < entries.len() && needs(
                            (#[trigger] entries[i]).1,
                            lookup(rest, entries[i].0),
                            missing,
                        );
                    assert(needs(entries[i].1, lookup(remaining, entries[i].0), missing));
                },
                Ok(_) => {
                    assert forall|i: int, phrase: Seq<char>|
                        from <= i < entries.len() && #[trigger] needs(
                            entries[i].1,
                            lookup(remaining, entries[i].0),
                            phrase,
                        ) implies knows(table, phrase) by {
                        if i > from {
                            assert(lookup(rest, entries[i].0) == lookup(remaining, entries[i].0));
                            assert(needs(entries[i].1, lookup(rest, entries[i].0), phrase));
                        }
                    }
                },
            },
        }
    }
}

/// One of the visits in `found` is a text `phrase` beside which nothing
/// stands.
pub open spec fn asked_in(found: Seq<VisitView>, phrase: Seq<char>) -> bool {
    exists|v: int|
        0 <= v < found.len() && (#[trigger] found[v]).node == Tree::Text(phrase)
            && found[v].counterpart is None
}

/// What is asked in two runs of visits is what is asked in either.
pub proof fn lemma_asked_in_parts(first: Seq<VisitView>, second: Seq<VisitView>, phrase: Seq<char>)
    ensures
        asked_in(first + second, phrase) <==> asked_in(first, phrase) || asked_in(second, phrase),
{
    let both = first + second;
    if asked_in(both, phrase) {
        let v = choose|v: int|
            0 <= v < both.len() && (#[trigger] both[v]).node == Tree::Text(phrase)
                && both[v].counterpart is None;
        if v < first.len() {
            assert(first[v] == both[v]);
        } else {
            assert(second[v - first.len()] == both[v]);
        }
    }
    if asked_in(first, phrase) {
        let v = choose|v: int|
            0 <= v < first.len() && (#[trigger] first[v]).node == Tree::Text(phrase)
                && first[v].counterpart is None;
        assert(both[v] == first[v]);
    }
    if asked_in(second, phrase) {
        let v = choose|v: int|
            0 <= v < second.len() && (#[trigger] second[v]).node == Tree::Text(phrase)
                && second[v].counterpart is None;
        assert(both[first.len() + v] == second[v]);
    }
}

/// The merge works along the traversal: it asks for exactly the texts that
/// the traversal of the source beside the target meets without a
/// counterpart.
pub proof fn lemma_merge_asks_what_the_walk_meets(
    source: Tree,
    key: Option<Seq<char>>,
    index: nat,
    target: Option<Tree>,
    phrase: Seq<char>,
)
    ensures
        needs(source, target, phrase) <==> asked_in(visits(source, key, index, target), phrase),
    decreases source, 0nat,
{
    let here = seq![VisitView { key, index, node: source, counterpart: target }];
    let below = match source {
        Tree::Container(entries) => visits_below(entries, 0, children_of(target)),
        _ => Seq::empty(),
    };
    lemma_asked_in_parts(here, below, phrase);
    if asked_in(here, phrase) {
        let v = choose|v: int|
            0 <= v < here.len() && (#[trigger] here[v]).node == Tree::Text(phrase)
                && here[v].counterpart is None;
        assert(here[v] == here[0]);
    }
    match source {
        Tree::Container(entries) => {
            lemma_entries_ask_what_the_walk_meets(entries, 0, children_of(target), phrase);
        },
        Tree::Text(text) => {
            if target is None && text == phrase {
                assert(here[0].node == Tree::Text(phrase));
            }
        },
        Tree::Opaque(_) => {},
    }
}

/// The same for the entries from position `from` on.
pub proof fn lemma_entries_ask_what_the_walk_meets(
    entries: Seq<(Seq<char>, Tree)>,
    from: nat,
    peers: Seq<(Seq<char>, Tree)>,
    phrase: Seq<char>,
)
    ensures
        asked_in(visits_below(entries, from, peers), phrase) <==> exists|i: int|
            from <= i < entries.len() && needs(
                (#[trigger] entries[i]).1,
                lookup(peers, entries[i].0),
                phrase,
            ),
    decreases entries, entries.len() - from,
{
    if from < entries.len() {
        let child = entries[from as int];
        let first = visits(child.1, Some(child.0), from, lookup(peers, child.0));
        let rest = visits_below(entries, from + 1, peers);
        lemma_asked_in_parts(first, rest, phrase);
        lemma_merge_asks_what_the_walk_meets(
            child.1,
            Some(child.0),
            from,
            lookup(peers, child.0),
            phrase,
        );
        lemma_entries_ask_what_the_walk_meets(entries, from + 1, peers, phrase);
        if asked_in(first, phrase) {
            assert(needs(entries[from as int].1, lookup(peers, entries[from as int].0), phrase));
        }
        if asked_in(rest, phrase) {
            let i = choose|i: int|
                from + 1 <= i < entries.len() && needs(
                    (#[trigger] entries[i]).1,
                    lookup(peers, entries[i].0),
                    phrase,
                );
            assert(needs(entries[i].1, lookup(peers, entries[i].0), phrase));
        }
        if exists|i: int|
            from <= i < entries.len() && needs(
                (#[trigger] entries[i]).1,
                lookup(peers, entries[i].0),
                phrase,
            ) {
            let i = choose|i: int|
                from <= i < entries.len() && needs(
                    (#[trigger] entries[i]).1,
                    lookup(peers, entries[i].0),
                    phrase,
                );
            if i > from {
                assert(needs(entries[i].1, lookup(peers, entries[i].0), phrase));
            }
        }
    }
}

/// A phrase map that went through the collector for a source, and through
/// any part of a run after that, has every translation that a merge of that
/// source asks for: the merge does not fail.
pub proof fn lemma_collected_phrases_suffice(
    source: Tree,
    target: Tree,
    before: Table,
    run: DriverView,
    held: Option<Tree>,
)
    requires
        run.consistent(),
        run.start == gathered(source, target, before),
    ensures
        merged(source, held, run.table) is Ok,
{
    if merged(source, held, run.table) is Err {
        let missing = merged(source, held, run.table)->Err_0;
        lemma_missing_phrase_is_a_text(source, held, run.table);
        lemma_gathered_knows_every_text(source, target, before, missing);
        lemma_run_keeps_phrases(run);
    }
}

} // verus!
