//! The document tree and its mathematical model.

use crate::assoc::{
    distinct_keys, first_index, is_absent, is_first, lemma_first_index_absent,
    lemma_first_index_found, lookup,
};
use vstd::prelude::*;

verus! {

/// `serde_json::Value`, carried through as an opaque value: nothing in this
/// crate looks inside one.
#[verifier::external_type_specification]
#[verifier::external_body]
pub struct ExJsonValue(serde_json::Value);

/// `<serde_json::Value as Clone>::clone` returns a copy that is the same
/// value as the one it was made of.
pub assume_specification[ <serde_json::Value as Clone>::clone ](v: &serde_json::Value) -> (copy:
    serde_json::Value)
    ensures
        copy == *v,
;

/// Mathematical model of a document.
pub enum Tree {
    /// Ordered key/value pairs.
    Container(Seq<(Seq<char>, Tree)>),
    /// A translatable string.
    Text(Seq<char>),
    /// Anything else: a boolean, a number, null or an array. Copied, never
    /// interpreted.
    Opaque(serde_json::Value),
}

/// One key/value pair of a container.
#[derive(Debug, PartialEq)]
pub struct Entry {
    /// The key, which no other entry of the same container has.
    pub key: String,
    /// What stands under the key.
    pub value: Document,
}

/// A node of a structured document.
#[derive(Debug, PartialEq)]
pub enum Document {
    /// An ordered mapping from keys to documents.
    Container(Vec<Entry>),
    /// A translatable string.
    Text(String),
    /// A boolean, a number, null or an array. Whatever is held here is
    /// carried and copied as it is; the library never looks inside.
    Opaque(serde_json::Value),
}

/// The pairs that a run of entries stands for.
pub open spec fn entries_view(entries: Seq<Entry>) -> Seq<(Seq<char>, Tree)>
    decreases entries,
{
    Seq::new(
        entries.len(),
        |i: int|
            if 0 <= i < entries.len() {
                (entries[i].key@, entries[i].value@)
            } else {
                arbitrary()
            },
    )
}

impl View for Document {
    type V = Tree;

    open spec fn view(&self) -> Tree
        decreases self,
    {
        match self {
            Document::Container(entries) => Tree::Container(entries_view(entries@)),
            Document::Text(s) => Tree::Text(s@),
            Document::Opaque(v) => Tree::Opaque(*v),
        }
    }
}

impl View for Entry {
    type V = (Seq<char>, Tree);

    open spec fn view(&self) -> (Seq<char>, Tree) {
        (self.key@, self.value@)
    }
}

impl Tree {
    /// The pairs of a container; none for a leaf.
    pub open spec fn children(self) -> Seq<(Seq<char>, Tree)> {
        match self {
            Tree::Container(entries) => entries,
            _ => Seq::empty(),
        }
    }

    /// `phrase` is one of the texts of the tree.
    pub open spec fn mentions(self, phrase: Seq<char>) -> bool
        decreases self,
    {
        match self {
            Tree::Container(entries) => exists|i: int|
                0 <= i < entries.len() && (#[trigger] entries[i]).1.mentions(phrase),
            Tree::Text(text) => text == phrase,
            Tree::Opaque(_) => false,
        }
    }

    /// No container, at any depth, holds a key twice.
    pub open spec fn well_formed(self) -> bool
        decreases self,
    {
        match self {
            Tree::Container(entries) => {
                &&& distinct_keys(entries)
                &&& forall|i: int|
                    0 <= i < entries.len() ==> (#[trigger] entries[i]).1.well_formed()
            },
            _ => true,
        }
    }
}

/// The pairs under a node that may be missing: those of a container, and
/// none where there is no node or the node is a leaf.
pub open spec fn children_of(node: Option<Tree>) -> Seq<(Seq<char>, Tree)> {
    match node {
        Some(tree) => tree.children(),
        None => Seq::empty(),
    }
}

/// Position of the first entry under `key`.
pub fn find_entry(entries: &Vec<Entry>, key: &String) -> (found: Option<usize>)
    ensures
        match found {
            Some(i) => first_index(entries_view(entries@), key@) == Some(i as int),
            None => first_index(entries_view(entries@), key@) is None,
        },
{
    let ghost pairs = entries_view(entries@);
    let mut i: usize = 0;
    while i < entries.len()
        invariant
            i <= entries.len(),
            pairs == entries_view(entries@),
            forall|j: int| 0 <= j < i ==> (#[trigger] pairs[j]).0 != key@,
        decreases entries.len() - i,
    {
        if entries[i].key == *key {
            proof {
                assert(is_first(pairs, key@, i as int));
                lemma_first_index_found(pairs, key@, i as int);
            }
            return Some(i);
        }
        i += 1;
    }
    proof {
        assert(is_absent(pairs, key@));
        lemma_first_index_absent(pairs, key@);
    }
    None
}

impl Clone for Entry {
    /// A copy that stands for the same pair.
    fn clone(&self) -> (copy: Entry)
        ensures
            copy@ == self@,
    {
        Entry { key: self.key.clone(), value: self.value.clone() }
    }
}

impl Clone for Document {
    /// A copy that stands for the same tree.
    fn clone(&self) -> (copy: Document)
        ensures
            copy@ == self@,
        decreases self,
    {
        match self {
            Document::Container(entries) => {
                let mut copies: Vec<Entry> = Vec::new();
                let mut i: usize = 0;
                while i < entries.len()
                    invariant
                        i <= entries.len(),
                        *self == Document::Container(*entries),
                        entries_view(copies@) =~= entries_view(entries@).take(i as int),
                    decreases entries.len() - i,
                {
                    let ghost before = entries_view(copies@);
                    assert(self->Container_0 == *entries);
                    let value = entries[i].value.clone();
                    copies.push(Entry { key: entries[i].key.clone(), value });
                    assert(entries_view(copies@) =~= before.push(entries[i as int]@));
                    i += 1;
                }
                assert(entries_view(entries@).take(i as int) =~= entries_view(entries@));
                Document::Container(copies)
            },
            Document::Text(text) => Document::Text(text.clone()),
            Document::Opaque(value) => Document::Opaque(value.clone()),
        }
    }
}

impl Document {
    /// An empty container.
    pub fn new() -> (document: Document)
        ensures
            document@ == Tree::Container(Seq::empty()),
            document@.well_formed(),
    {
        let document = Document::Container(Vec::new());
        assert(entries_view(Seq::<Entry>::empty()) =~= Seq::empty());
        document
    }

    /// Whether no container, at any depth, holds a key twice.
    pub fn is_well_formed(&self) -> (ok: bool)
        ensures
            ok == self@.well_formed(),
        decreases self,
    {
        match self {
            Document::Container(entries) => {
                let ghost pairs = entries_view(entries@);
                let mut i: usize = 0;
                while i < entries.len()
                    invariant
                        i <= entries.len(),
                        *self == Document::Container(*entries),
                        pairs == entries_view(entries@),
                        forall|a: int| 0 <= a < i ==> (#[trigger] pairs[a]).1.well_formed(),
                        forall|a: int, b: int|
                            0 <= a < b < i ==> (#[trigger] pairs[a]).0 != (#[trigger] pairs[b]).0,
                    decreases entries.len() - i,
                {
                    let mut j: usize = 0;
                    while j < i
                        invariant
                            j <= i < entries.len(),
                            *self == Document::Container(*entries),
                            pairs == entries_view(entries@),
                            forall|a: int|
                                0 <= a < j ==> (#[trigger] pairs[a]).0 != pairs[i as int].0,
                        decreases i - j,
                    {
                        if entries[j].key == entries[i].key {
                            assert(pairs[j as int].0 == pairs[i as int].0);
                            return false;
                        }
                        j += 1;
                    }
                    assert(self->Container_0 == *entries);
                    if !entries[i].value.is_well_formed() {
                        assert(!pairs[i as int].1.well_formed());
                        return false;
                    }
                    i += 1;
                }
                true
            },
            _ => true,
        }
    }

    /// The value of the first entry under `key`; nothing for a leaf.
    pub fn get(&self, key: &String) -> (value: Option<&Document>)
        ensures
            match value {
                Some(document) => lookup(self@.children(), key@) == Some(document@),
                None => lookup(self@.children(), key@) is None,
            },
    {
        match self {
            Document::Container(entries) => match find_entry(entries, key) {
                Some(i) => Some(&entries[i].value),
                None => None,
            },
            _ => {
                proof {
                    lemma_first_index_absent(self@.children(), key@);
                }
                None
            },
        }
    }
}

} // verus!
