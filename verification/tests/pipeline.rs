use q_translate::collect::gather_translations;
use q_translate::document::{Document, Entry};
use q_translate::driver::{Action, Driver};
use q_translate::batch::RemoteBatchError;
use q_translate::phrases::PhraseMap;
use q_translate::rebuild::apply_translations;
use serde_json::Value;

fn text(s: &str) -> Document {
    Document::Text(s.to_string())
}

fn container(entries: Vec<(&str, Document)>) -> Document {
    Document::Container(
        entries
            .into_iter()
            .map(|(key, value)| Entry { key: key.to_string(), value })
            .collect(),
    )
}

/// A stand-in for the translation service; it counts what it is asked.
struct Service {
    calls: Vec<Vec<String>>,
    failing: Vec<usize>,
}

impl Service {
    fn new() -> Service {
        Service { calls: Vec::new(), failing: Vec::new() }
    }

    fn translate(&mut self, phrases: &[String]) -> Result<Vec<String>, RemoteBatchError> {
        let call = self.calls.len();
        self.calls.push(phrases.to_vec());
        if self.failing.contains(&call) {
            Err(RemoteBatchError::Request)
        } else {
            Ok(phrases.iter().map(|p| format!("<{}>", p)).collect())
        }
    }
}

fn run(source: &Document, target: Document, service: &mut Service) -> Document {
    let mut map = PhraseMap::new();
    gather_translations(source, &target, &mut map);
    let mut driver = Driver::new(map);
    loop {
        match driver.next_action() {
            Action::Dispatch { batch, phrases } => {
                let reply = service.translate(&phrases);
                assert!(driver.complete(batch, reply));
            }
            Action::Wait => panic!("nothing is under way"),
            Action::Finished => break,
        }
    }
    apply_translations(source, target, &driver.finish()).unwrap()
}

#[test]
fn second_run_changes_nothing_and_asks_nothing() {
    let source = container(vec![
        ("title", text("Hello")),
        ("count", Document::Opaque(Value::from(5))),
        ("menu", container(vec![("open", text("Open")), ("again", text("Hello"))])),
    ]);
    let mut service = Service::new();
    let first = run(&source, Document::new(), &mut service);
    assert_eq!(service.calls.len(), 1);
    assert_eq!(
        first,
        container(vec![
            ("title", text("<Hello>")),
            ("count", Document::Opaque(Value::from(5))),
            ("menu", container(vec![("open", text("<Open>")), ("again", text("<Hello>"))])),
        ])
    );
    let second = run(&source, first.clone(), &mut service);
    assert_eq!(second, first);
    assert_eq!(service.calls.len(), 1);
}

#[test]
fn repeated_phrase_is_asked_once() {
    let source = container(vec![
        ("a", text("Hello")),
        ("b", text("Hello")),
        ("c", container(vec![("d", text("Hello")), ("e", text("Bye"))])),
    ]);
    let mut service = Service::new();
    let out = run(&source, Document::new(), &mut service);
    let asked: Vec<&String> = service.calls.iter().flatten().filter(|p| *p == "Hello").collect();
    assert_eq!(asked.len(), 1);
    assert_eq!(service.calls, vec![vec!["Hello".to_string(), "Bye".to_string()]]);
    assert_eq!(
        out,
        container(vec![
            ("a", text("<Hello>")),
            ("b", text("<Hello>")),
            ("c", container(vec![("d", text("<Hello>")), ("e", text("<Bye>"))])),
        ])
    );
}

#[test]
fn only_new_keys_are_translated() {
    let source = container(vec![("a", text("one")), ("b", text("two")), ("c", text("three"))]);
    let target = container(vec![("a", text("eins")), ("c", text("drei"))]);
    let mut service = Service::new();
    let out = run(&source, target, &mut service);
    assert_eq!(service.calls, vec![vec!["two".to_string()]]);
    assert_eq!(
        out,
        container(vec![("a", text("eins")), ("b", text("<two>")), ("c", text("drei"))])
    );
}

#[test]
fn failed_second_batch_is_marked_and_the_first_is_translated() {
    let names: Vec<String> = (0..130).map(|i| format!("key{}", i)).collect();
    let source = Document::Container(
        names
            .iter()
            .map(|name| Entry { key: name.clone(), value: Document::Text(format!("phrase {}", name)) })
            .collect(),
    );
    let mut service = Service::new();
    service.failing.push(1);
    let out = run(&source, Document::new(), &mut service);
    assert_eq!(service.calls.len(), 2);
    assert_eq!(service.calls[0].len(), 128);
    assert_eq!(service.calls[1].len(), 2);
    match out {
        Document::Container(entries) => {
            assert_eq!(entries.len(), 130);
            for (i, entry) in entries.iter().enumerate() {
                assert_eq!(entry.key, names[i]);
                let expected = if i < 128 {
                    format!("<phrase {}>", names[i])
                } else {
                    "Error".to_string()
                };
                assert_eq!(entry.value, Document::Text(expected));
            }
        }
        _ => panic!("not a container"),
    }
}

#[test]
fn three_hundred_distinct_phrases_take_three_requests() {
    let source = Document::Container(
        (0..300)
            .map(|i| Entry { key: format!("key{}", i), value: Document::Text(format!("phrase {}", i)) })
            .collect(),
    );
    let mut service = Service::new();
    run(&source, Document::new(), &mut service);
    let sizes: Vec<usize> = service.calls.iter().map(|c| c.len()).collect();
    assert_eq!(sizes, vec![128, 128, 44]);
}

#[test]
fn value_in_the_place_of_a_text_is_asked_for_again_and_kept() {
    // The target holds a number where the source holds a text: the phrase
    // counts as unresolved on every run, and the number stays.
    let source = container(vec![("a", text("Hello"))]);
    let target = container(vec![("a", Document::Opaque(Value::from(5)))]);
    let mut service = Service::new();
    let first = run(&source, target.clone(), &mut service);
    assert_eq!(first, target);
    let second = run(&source, first, &mut service);
    assert_eq!(second, target);
    assert_eq!(service.calls.len(), 2);
}
