use q_translate::document::{Document, Entry};
use q_translate::phrases::PhraseMap;
use q_translate::rebuild::{apply_translations, LookupInvariantViolation};
use serde_json::Value;

fn text(s: &str) -> Document {
    Document::Text(s.to_string())
}

fn container(entries: Vec<(&str, Document)>) -> Document {
    Document::Container(
        entries
            .into_iter()
            .map(|(key, value)| Entry { key: key.to_string(), value })
            .collect(),
    )
}

fn phrases(pairs: &[(&str, &str)]) -> PhraseMap {
    let mut map = PhraseMap::new();
    for (phrase, translation) in pairs {
        map.insert(phrase.to_string(), translation.to_string());
    }
    map
}

fn keys(document: &Document) -> Vec<String> {
    match document {
        Document::Container(entries) => entries.iter().map(|e| e.key.clone()).collect(),
        _ => panic!("not a container"),
    }
}

#[test]
fn empty_target_takes_the_keys_of_the_source_in_order() {
    let source = container(vec![("a", text("one")), ("b", text("two")), ("c", text("three"))]);
    // The phrase map holds the phrases in another order than the source.
    let map = phrases(&[("three", "drei"), ("one", "eins"), ("two", "zwei")]);
    let out = apply_translations(&source, Document::new(), &map).unwrap();
    assert_eq!(keys(&out), vec!["a", "b", "c"]);
    assert_eq!(
        out,
        container(vec![("a", text("eins")), ("b", text("zwei")), ("c", text("drei"))])
    );
}

#[test]
fn values_that_are_no_strings_are_copied_unchanged() {
    let source = container(vec![
        ("count", Document::Opaque(Value::from(5))),
        ("flag", Document::Opaque(Value::Bool(true))),
        ("list", Document::Opaque(Value::Array(vec![Value::from(1), Value::from(2)]))),
        ("note", Document::Opaque(Value::Null)),
    ]);
    let out = apply_translations(&source, Document::new(), &PhraseMap::new()).unwrap();
    match &out {
        Document::Container(entries) => {
            assert_eq!(entries.len(), 4);
            assert_eq!(entries[0].key, "count");
            assert_eq!(entries[0].value, Document::Opaque(Value::from(5)));
            assert_eq!(entries[1].key, "flag");
            assert_eq!(entries[1].value, Document::Opaque(Value::Bool(true)));
            assert_eq!(entries[2].key, "list");
            assert_eq!(
                entries[2].value,
                Document::Opaque(Value::Array(vec![Value::from(1), Value::from(2)]))
            );
            assert_eq!(entries[3].key, "note");
            assert_eq!(entries[3].value, Document::Opaque(Value::Null));
        }
        _ => panic!("not a container"),
    }
    assert_eq!(out, source);
}

#[test]
fn missing_entry_lands_between_its_neighbours() {
    let source = container(vec![("a", text("one")), ("b", text("two")), ("c", text("three"))]);
    let target = container(vec![("a", text("EINS")), ("c", text("DREI"))]);
    let map = phrases(&[("one", "eins"), ("two", "zwei"), ("three", "drei")]);
    let out = apply_translations(&source, target, &map).unwrap();
    assert_eq!(
        out,
        container(vec![("a", text("EINS")), ("b", text("zwei")), ("c", text("DREI"))])
    );
}

#[test]
fn existing_values_are_kept_whatever_they_are() {
    let source = container(vec![
        ("a", text("one")),
        ("n", Document::Opaque(Value::from(1))),
        ("s", text("two")),
    ]);
    let target = container(vec![
        ("a", text("already there")),
        ("n", Document::Opaque(Value::from(99))),
        ("s", Document::Opaque(Value::Bool(false))),
    ]);
    // An empty phrase map: nothing is looked up, so nothing is missing.
    let out = apply_translations(&source, target.clone(), &PhraseMap::new()).unwrap();
    assert_eq!(out, target);
}

#[test]
fn target_in_another_order_is_brought_into_source_order() {
    let source = container(vec![("a", text("one")), ("b", text("two")), ("c", text("three"))]);
    let target = container(vec![("c", text("DREI")), ("a", text("EINS"))]);
    let map = phrases(&[("two", "zwei")]);
    let out = apply_translations(&source, target, &map).unwrap();
    assert_eq!(
        out,
        container(vec![("a", text("EINS")), ("b", text("zwei")), ("c", text("DREI"))])
    );
}

#[test]
fn entries_that_only_the_target_has_follow_behind() {
    let source = container(vec![("a", text("one")), ("b", text("two"))]);
    let target = container(vec![
        ("x", text("extra one")),
        ("b", text("ZWEI")),
        ("y", Document::Opaque(Value::from(7))),
    ]);
    let map = phrases(&[("one", "eins")]);
    let out = apply_translations(&source, target, &map).unwrap();
    assert_eq!(
        out,
        container(vec![
            ("a", text("eins")),
            ("b", text("ZWEI")),
            ("x", text("extra one")),
            ("y", Document::Opaque(Value::from(7))),
        ])
    );
}

#[test]
fn nested_containers_are_created_and_filled() {
    let source = container(vec![
        ("title", text("Hello")),
        ("menu", container(vec![("open", text("Open")), ("depth", Document::Opaque(Value::from(2)))])),
    ]);
    let map = phrases(&[("Hello", "Hallo"), ("Open", "Öffnen")]);
    let out = apply_translations(&source, Document::new(), &map).unwrap();
    assert_eq!(
        out,
        container(vec![
            ("title", text("Hallo")),
            ("menu", container(vec![("open", text("Öffnen")), ("depth", Document::Opaque(Value::from(2)))])),
        ])
    );
}

#[test]
fn value_in_the_place_of_a_container_is_replaced() {
    let source = container(vec![("menu", container(vec![("open", text("Open"))]))]);
    let target = container(vec![("menu", text("not a container"))]);
    let map = phrases(&[("Open", "Öffnen")]);
    let out = apply_translations(&source, target, &map).unwrap();
    assert_eq!(out, container(vec![("menu", container(vec![("open", text("Öffnen"))]))]));
}

#[test]
fn target_that_is_no_container_is_replaced_at_the_root() {
    let source = container(vec![("a", text("one"))]);
    let map = phrases(&[("one", "eins")]);
    let out = apply_translations(&source, text("stray"), &map).unwrap();
    assert_eq!(out, container(vec![("a", text("eins"))]));
}

#[test]
fn unknown_phrase_is_reported() {
    let source = container(vec![("a", text("one")), ("b", text("two")), ("c", text("three"))]);
    let map = phrases(&[("one", "eins")]);
    let outcome = apply_translations(&source, Document::new(), &map);
    assert_eq!(outcome, Err(LookupInvariantViolation { phrase: "two".to_string() }));
}

#[test]
fn unknown_phrase_is_not_missed_where_the_target_has_a_value() {
    let source = container(vec![("a", text("one")), ("b", text("two"))]);
    let target = container(vec![("a", text("EINS")), ("b", text("ZWEI"))]);
    let outcome = apply_translations(&source, target.clone(), &PhraseMap::new());
    assert_eq!(outcome, Ok(target));
}

#[test]
fn merging_twice_changes_nothing() {
    let source = container(vec![
        ("a", text("one")),
        ("menu", container(vec![("open", text("Open")), ("n", Document::Opaque(Value::from(3)))])),
        ("b", text("two")),
    ]);
    let target = container(vec![("z", text("old")), ("b", text("ZWEI"))]);
    let map = phrases(&[("one", "eins"), ("Open", "Öffnen")]);
    let first = apply_translations(&source, target, &map).unwrap();
    let second = apply_translations(&source, first.clone(), &PhraseMap::new()).unwrap();
    assert_eq!(first, second);
}

#[test]
fn repeated_phrase_is_filled_everywhere() {
    let source = container(vec![
        ("a", text("Hello")),
        ("b", text("Hello")),
        ("c", container(vec![("d", text("Hello"))])),
    ]);
    let map = phrases(&[("Hello", "Hallo")]);
    let out = apply_translations(&source, Document::new(), &map).unwrap();
    assert_eq!(
        out,
        container(vec![
            ("a", text("Hallo")),
            ("b", text("Hallo")),
            ("c", container(vec![("d", text("Hallo"))])),
        ])
    );
}

#[test]
fn leaf_source_keeps_the_target() {
    let out = apply_translations(&text("one"), Document::new(), &phrases(&[("one", "eins")])).unwrap();
    assert_eq!(out, Document::new());
}

#[test]
fn copy_of_a_document_equals_it() {
    let document = container(vec![
        ("a", text("one")),
        ("list", Document::Opaque(Value::Array(vec![Value::from(1), Value::from("x")]))),
        ("menu", container(vec![("open", text("Open"))])),
    ]);
    assert_eq!(document.clone(), document);
}

#[test]
fn get_finds_the_first_entry_under_a_key() {
    let document = container(vec![("a", text("one")), ("b", text("two"))]);
    assert_eq!(document.get(&"b".to_string()), Some(&text("two")));
    assert_eq!(document.get(&"c".to_string()), None);
    assert_eq!(text("leaf").get(&"a".to_string()), None);
}

#[test]
fn well_formed_documents_hold_no_key_twice() {
    assert!(Document::new().is_well_formed());
    assert!(text("leaf").is_well_formed());
    assert!(container(vec![("a", text("one")), ("b", container(vec![("a", text("two"))]))])
        .is_well_formed());
    assert!(!container(vec![("a", text("one")), ("b", text("two")), ("a", text("three"))])
        .is_well_formed());
    assert!(!container(vec![(
        "outer",
        container(vec![("x", text("one")), ("x", Document::Opaque(Value::Null))])
    )])
    .is_well_formed());
}

#[test]
fn merged_documents_stay_well_formed() {
    let source = container(vec![("a", text("one")), ("m", container(vec![("b", text("two"))]))]);
    let target = container(vec![("z", text("old")), ("m", container(vec![("y", text("older"))]))]);
    let map = phrases(&[("one", "eins"), ("two", "zwei")]);
    let out = apply_translations(&source, target, &map).unwrap();
    assert!(out.is_well_formed());
    assert_eq!(
        out,
        container(vec![
            ("a", text("eins")),
            ("m", container(vec![("b", text("zwei")), ("y", text("older"))])),
            ("z", text("old")),
        ])
    );
}
