//! Depth-first traversal of a document beside a second one.

use crate::assoc::{lemma_first_index_absent, lookup};
use crate::document::{children_of, entries_view, Document, Tree};
use vstd::prelude::*;

verus! {

/// Model of one visit of the traversal.
pub struct VisitView {
    /// The key under which the node stands; none for the root.
    pub key: Option<Seq<char>>,
    /// The node's position among the entries of its container.
    pub index: nat,
    /// The node itself.
    pub node: Tree,
    /// What the second document holds in the node's place, if anything.
    pub counterpart: Option<Tree>,
}

/// The visits of `node` and of everything below it, in pre-order.
///
/// A child's counterpart is the value of the first entry that the node's
/// counterpart holds under the child's key; a counterpart that is missing or
/// is no container has no entries.
pub open spec fn visits(
    node: Tree,
    key: Option<Seq<char>>,
    index: nat,
    counterpart: Option<Tree>,
) -> Seq<VisitView>
    decreases node, 0nat,
{
    seq![VisitView { key, index, node, counterpart }] + (match node {
        Tree::Container(entries) => visits_below(entries, 0, children_of(counterpart)),
        _ => Seq::empty(),
    })
}

/// The visits of the entries from position `from` on, each with everything
/// below it.
pub open spec fn visits_below(
    entries: Seq<(Seq<char>, Tree)>,
    from: nat,
    peers: Seq<(Seq<char>, Tree)>,
) -> Seq<VisitView>
    decreases entries, entries.len() - from,
{
    if from >= entries.len() {
        Seq::empty()
    } else {
        visits(
            entries[from as int].1,
            Some(entries[from as int].0),
            from,
            lookup(peers, entries[from as int].0),
        ) + visits_below(entries, from + 1, peers)
    }
}

/// The model of a document that may be missing.
pub open spec fn model_of<'a>(document: Option<&'a Document>) -> Option<Tree> {
    match document {
        Some(d) => Some(d@),
        None => None,
    }
}

/// One node met during a traversal.
#[derive(Debug)]
pub struct Visit<'a> {
    /// The key under which the node stands; none for the root.
    pub key: Option<&'a String>,
    /// The node's position among the entries of its container.
    pub index: usize,
    /// The node itself.
    pub node: &'a Document,
    /// What the second document holds in the node's place, if anything.
    pub counterpart: Option<&'a Document>,
}

impl<'a> View for Visit<'a> {
    type V = VisitView;

    open spec fn view(&self) -> VisitView {
        VisitView {
            key: match self.key {
                Some(key) => Some(key@),
                None => None,
            },
            index: self.index as nat,
            node: self.node@,
            counterpart: model_of(self.counterpart),
        }
    }
}

/// The models of a run of visits.
pub open spec fn visits_view<'a>(visits: Seq<Visit<'a>>) -> Seq<VisitView> {
    Seq::new(visits.len(), |i: int| visits[i]@)
}

fn walk_into<'a>(
    node: &'a Document,
    key: Option<&'a String>,
    index: usize,
    counterpart: Option<&'a Document>,
    out: &mut Vec<Visit<'a>>,
)
    ensures
        visits_view(final(out)@) == visits_view(old(out)@) + visits(
            node@,
            (Visit { key, index, node, counterpart })@.key,
            index as nat,
            model_of(counterpart),
        ),
    decreases node,
{
    let ghost before = visits_view(out@);
    let ghost here = (Visit { key, index, node, counterpart })@;
    let ghost all = visits(node@, here.key, index as nat, here.counterpart);
    out.push(Visit { key, index, node, counterpart });
    assert(visits_view(out@) =~= before + seq![here]);
    match node {
        Document::Container(entries) => {
            let ghost pairs = entries_view(entries@);
            let ghost peers = children_of(model_of(counterpart));
            let mut i: usize = 0;
            assert(before + seq![here] + visits_below(pairs, 0, peers) =~= before + all);
            while i < entries.len()
                invariant
                    i <= entries.len(),
                    *node == Document::Container(*entries),
                    pairs == entries_view(entries@),
                    peers == children_of(model_of(counterpart)),
                    visits_view(out@) + visits_below(pairs, i as nat, peers) == before + all,
                decreases entries.len() - i,
            {
                let entry = &entries[i];
                let peer = match counterpart {
                    Some(document) => document.get(&entry.key),
                    None => None,
                };
                proof {
                    if counterpart is None {
                        lemma_first_index_absent(peers, entry.key@);
                    }
                }
                let ghost sofar = visits_view(out@);
                let ghost step = visits(
                    pairs[i as int].1,
                    Some(pairs[i as int].0),
                    i as nat,
                    lookup(peers, pairs[i as int].0),
                );
                let ghost rest = visits_below(pairs, (i + 1) as nat, peers);
                assert(node->Container_0 == *entries);
                walk_into(&entry.value, Some(&entry.key), i, peer, out);
                assert(sofar + step + rest =~= sofar + visits_below(pairs, i as nat, peers));
                i += 1;
            }
            assert(visits_view(out@) =~= before + all);
        },
        _ => {
            assert(visits_view(out@) =~= before + all);
        },
    }
}

/// Visits `source` and everything below it in pre-order, each node beside
/// what `target` holds in its place.
pub fn walk<'a>(source: &'a Document, target: Option<&'a Document>) -> (found: Vec<Visit<'a>>)
    ensures
        visits_view(found@) == visits(source@, None, 0, model_of(target)),
{
    let mut found: Vec<Visit<'a>> = Vec::new();
    assert(visits_view(found@) =~= Seq::empty());
    walk_into(source, None, 0, target, &mut found);
    assert(Seq::<VisitView>::empty() + visits_view(found@) =~= visits_view(found@));
    found
}

} // verus!
