use q_translate::collect::gather_translations;
use q_translate::document::{Document, Entry};
use q_translate::phrases::PhraseMap;
use q_translate::walker::walk;
use serde_json::Value;

fn text(s: &str) -> Document {
    Document::Text(s.to_string())
}

fn container(entries: Vec<(&str, Document)>) -> Document {
    Document::Container(
        entries
            .into_iter()
            .map(|(key, value)| Entry { key: key.to_string(), value })
            .collect(),
    )
}

fn translation(map: &PhraseMap, phrase: &str) -> Option<String> {
    map.get(&phrase.to_string()).cloned()
}

#[test]
fn new_phrases_are_entered_as_unresolved() {
    let source = container(vec![("a", text("one")), ("b", text("two"))]);
    let mut map = PhraseMap::new();
    gather_translations(&source, &Document::new(), &mut map);
    assert_eq!(map.len(), 2);
    assert_eq!(translation(&map, "one"), Some(String::new()));
    assert_eq!(translation(&map, "two"), Some(String::new()));
    assert_eq!(map.unresolved(), vec!["one".to_string(), "two".to_string()]);
}

#[test]
fn existing_translations_are_taken_over() {
    let source = container(vec![("a", text("one")), ("b", text("two"))]);
    let target = container(vec![("b", text("zwei"))]);
    let mut map = PhraseMap::new();
    gather_translations(&source, &target, &mut map);
    assert_eq!(translation(&map, "one"), Some(String::new()));
    assert_eq!(translation(&map, "two"), Some("zwei".to_string()));
    assert_eq!(map.unresolved(), vec!["one".to_string()]);
}

#[test]
fn repeated_phrase_has_one_entry() {
    let source = container(vec![
        ("a", text("Hello")),
        ("b", text("Hello")),
        ("c", container(vec![("d", text("Hello"))])),
    ]);
    let mut map = PhraseMap::new();
    gather_translations(&source, &Document::new(), &mut map);
    assert_eq!(map.len(), 1);
    assert_eq!(map.unresolved(), vec!["Hello".to_string()]);
}

#[test]
fn placeholder_does_not_replace_a_translation() {
    // "Hello" is translated under "a" and missing under "b".
    let source = container(vec![("a", text("Hello")), ("b", text("Hello"))]);
    let target = container(vec![("a", text("Hallo"))]);
    let mut map = PhraseMap::new();
    gather_translations(&source, &target, &mut map);
    assert_eq!(translation(&map, "Hello"), Some("Hallo".to_string()));
    assert!(map.unresolved().is_empty());
}

#[test]
fn later_translation_resolves_an_earlier_placeholder() {
    let source = container(vec![("a", text("Hello")), ("b", text("Hello"))]);
    let target = container(vec![("b", text("Hallo"))]);
    let mut map = PhraseMap::new();
    gather_translations(&source, &target, &mut map);
    assert_eq!(map.len(), 1);
    assert_eq!(translation(&map, "Hello"), Some("Hallo".to_string()));
}

#[test]
fn values_that_are_no_strings_are_passed_over() {
    let source = container(vec![
        ("count", Document::Opaque(Value::from(5))),
        ("flag", Document::Opaque(Value::Bool(true))),
        ("list", Document::Opaque(Value::Array(vec![Value::from("in a list")]))),
        ("note", Document::Opaque(Value::Null)),
    ]);
    let mut map = PhraseMap::new();
    gather_translations(&source, &Document::new(), &mut map);
    assert_eq!(map.len(), 0);
}

#[test]
fn counterpart_that_is_no_string_counts_as_missing() {
    let source = container(vec![("a", text("one")), ("b", text("two"))]);
    let target = container(vec![
        ("a", Document::Opaque(Value::from(1))),
        ("b", container(vec![("x", text("y"))])),
    ]);
    let mut map = PhraseMap::new();
    gather_translations(&source, &target, &mut map);
    assert_eq!(map.unresolved(), vec!["one".to_string(), "two".to_string()]);
}

#[test]
fn empty_counterpart_counts_as_missing() {
    let source = container(vec![("a", text("one"))]);
    let target = container(vec![("a", text(""))]);
    let mut map = PhraseMap::new();
    gather_translations(&source, &target, &mut map);
    assert_eq!(translation(&map, "one"), Some(String::new()));
}

#[test]
fn nothing_below_a_mismatched_container_counts_as_translated() {
    let source = container(vec![("menu", container(vec![("open", text("Open"))]))]);
    let target = container(vec![("menu", text("Open"))]);
    let mut map = PhraseMap::new();
    gather_translations(&source, &target, &mut map);
    assert_eq!(map.unresolved(), vec!["Open".to_string()]);
}

#[test]
fn nested_translations_are_found_by_their_path() {
    let source = container(vec![
        ("menu", container(vec![("open", text("Open")), ("close", text("Close"))])),
        ("title", text("Open")),
    ]);
    let target = container(vec![("menu", container(vec![("close", text("Schließen"))]))]);
    let mut map = PhraseMap::new();
    gather_translations(&source, &target, &mut map);
    assert_eq!(translation(&map, "Open"), Some(String::new()));
    assert_eq!(translation(&map, "Close"), Some("Schließen".to_string()));
    assert_eq!(map.unresolved(), vec!["Open".to_string()]);
}

#[test]
fn gathering_keeps_what_the_map_already_holds() {
    let source = container(vec![("a", text("one"))]);
    let mut map = PhraseMap::new();
    map.insert("one".to_string(), "eins".to_string());
    map.insert("other".to_string(), "anderes".to_string());
    gather_translations(&source, &Document::new(), &mut map);
    assert_eq!(map.len(), 2);
    assert_eq!(translation(&map, "one"), Some("eins".to_string()));
    assert_eq!(translation(&map, "other"), Some("anderes".to_string()));
}

#[test]
fn walk_visits_in_document_order() {
    let source = container(vec![
        ("a", text("one")),
        ("menu", container(vec![("open", text("Open")), ("n", Document::Opaque(Value::from(1)))])),
        ("b", text("two")),
    ]);
    let target = container(vec![
        ("b", text("zwei")),
        ("menu", container(vec![("n", Document::Opaque(Value::from(2)))])),
    ]);
    let visits = walk(&source, Some(&target));
    let seen: Vec<(Option<String>, usize, bool)> = visits
        .iter()
        .map(|v| (v.key.cloned(), v.index, v.counterpart.is_some()))
        .collect();
    assert_eq!(
        seen,
        vec![
            (None, 0, true),
            (Some("a".to_string()), 0, false),
            (Some("menu".to_string()), 1, true),
            (Some("open".to_string()), 0, false),
            (Some("n".to_string()), 1, true),
            (Some("b".to_string()), 2, true),
        ]
    );
    assert_eq!(visits[0].node, &source);
    assert_eq!(visits[3].node, &text("Open"));
    assert_eq!(visits[4].counterpart, Some(&Document::Opaque(Value::from(2))));
    assert_eq!(visits[5].counterpart, Some(&text("zwei")));
}

#[test]
fn walk_without_a_second_document_finds_no_counterpart() {
    let source = container(vec![("a", text("one")), ("m", container(vec![("b", text("two"))]))]);
    let visits = walk(&source, None);
    assert_eq!(visits.len(), 4);
    assert!(visits.iter().all(|v| v.counterpart.is_none()));
}

#[test]
fn walk_of_a_leaf_is_one_visit() {
    let leaf = text("alone");
    let visits = walk(&leaf, None);
    assert_eq!(visits.len(), 1);
    assert_eq!(visits[0].key, None);
    assert_eq!(visits[0].index, 0);
}

#[test]
fn insert_replaces_in_place_and_appends_what_is_new() {
    let mut map = PhraseMap::new();
    map.insert("a".to_string(), String::new());
    map.insert("b".to_string(), String::new());
    map.insert("a".to_string(), "A".to_string());
    assert_eq!(map.len(), 2);
    assert_eq!(translation(&map, "a"), Some("A".to_string()));
    assert_eq!(map.unresolved(), vec!["b".to_string()]);
    assert_eq!(translation(&map, "c"), None);
}

#[test]
fn store_takes_pairs_in_order() {
    let mut map = PhraseMap::new();
    map.insert("a".to_string(), String::new());
    map.store(&vec![
        ("a".to_string(), "A".to_string()),
        ("b".to_string(), "B".to_string()),
        ("a".to_string(), "AA".to_string()),
    ]);
    assert_eq!(map.len(), 2);
    assert_eq!(translation(&map, "a"), Some("AA".to_string()));
    assert_eq!(translation(&map, "b"), Some("B".to_string()));
    assert_eq!(map.clone(), map);
}
