use q_translate::batch::{batch_outcome, request_parameters, split_batches, RemoteBatchError, BATCH_SIZE};
use q_translate::driver::{Action, Driver, MAX_IN_FLIGHT};
use q_translate::phrases::PhraseMap;

fn numbered(n: usize) -> Vec<String> {
    (0..n).map(|i| format!("phrase {}", i)).collect()
}

fn unresolved_map(n: usize) -> PhraseMap {
    let mut map = PhraseMap::new();
    for phrase in numbered(n) {
        map.insert(phrase, String::new());
    }
    map
}

fn upper(phrases: &[String]) -> Vec<String> {
    phrases.iter().map(|p| p.to_uppercase()).collect()
}

#[test]
fn limits_are_as_documented() {
    assert_eq!(BATCH_SIZE, 128);
    assert_eq!(MAX_IN_FLIGHT, 5);
}

#[test]
fn three_hundred_phrases_make_three_batches() {
    let batches = split_batches(numbered(300));
    let sizes: Vec<usize> = batches.iter().map(|b| b.len()).collect();
    assert_eq!(sizes, vec![128, 128, 44]);
    let joined: Vec<String> = batches.into_iter().flatten().collect();
    assert_eq!(joined, numbered(300));
}

#[test]
fn batch_sizes_at_the_edges() {
    let sizes = |n: usize| -> Vec<usize> {
        split_batches(numbered(n)).iter().map(|b| b.len()).collect()
    };
    assert_eq!(sizes(0), Vec::<usize>::new());
    assert_eq!(sizes(1), vec![1]);
    assert_eq!(sizes(127), vec![127]);
    assert_eq!(sizes(128), vec![128]);
    assert_eq!(sizes(129), vec![128, 1]);
    assert_eq!(sizes(256), vec![128, 128]);
}

#[test]
fn reply_is_paired_with_its_phrases() {
    let batch = vec!["one".to_string(), "two".to_string()];
    let pairs = batch_outcome(&batch, Ok(vec!["eins".to_string(), "zwei".to_string()]));
    assert_eq!(
        pairs,
        vec![
            ("one".to_string(), "eins".to_string()),
            ("two".to_string(), "zwei".to_string()),
        ]
    );
}

#[test]
fn failed_request_marks_every_phrase() {
    let batch = vec!["one".to_string(), "two".to_string()];
    let marked = vec![
        ("one".to_string(), "Error".to_string()),
        ("two".to_string(), "Error".to_string()),
    ];
    assert_eq!(batch_outcome(&batch, Err(RemoteBatchError::Request)), marked);
    assert_eq!(batch_outcome(&batch, Err(RemoteBatchError::Decode)), marked);
}

#[test]
fn reply_of_another_length_counts_as_failed() {
    let batch = vec!["one".to_string(), "two".to_string()];
    let marked = vec![
        ("one".to_string(), "Error".to_string()),
        ("two".to_string(), "Error".to_string()),
    ];
    assert_eq!(batch_outcome(&batch, Ok(vec!["eins".to_string()])), marked);
    assert_eq!(
        batch_outcome(
            &batch,
            Ok(vec!["eins".to_string(), "zwei".to_string(), "drei".to_string()])
        ),
        marked
    );
    assert_eq!(batch_outcome(&Vec::new(), Ok(Vec::new())), Vec::new());
}

#[test]
fn request_parameters_list_key_target_and_phrases() {
    let phrases = vec!["Hallo Welt".to_string(), "Guten Tag".to_string()];
    assert_eq!(
        request_parameters("SECRET", "en", &phrases),
        vec![
            ("key".to_string(), "SECRET".to_string()),
            ("target".to_string(), "en".to_string()),
            ("q".to_string(), "Hallo Welt".to_string()),
            ("q".to_string(), "Guten Tag".to_string()),
        ]
    );
    assert_eq!(
        request_parameters("k", "pl", &Vec::new()),
        vec![("key".to_string(), "k".to_string()), ("target".to_string(), "pl".to_string())]
    );
}

#[test]
fn three_hundred_phrases_make_three_requests() {
    let mut driver = Driver::new(unresolved_map(300));
    let mut sizes = Vec::new();
    loop {
        match driver.next_action() {
            Action::Dispatch { batch, phrases } => {
                sizes.push(phrases.len());
                assert!(driver.complete(batch, Ok(upper(&phrases))));
            }
            Action::Wait => panic!("nothing is under way"),
            Action::Finished => break,
        }
    }
    assert_eq!(sizes, vec![128, 128, 44]);
    let map = driver.finish();
    assert!(map.unresolved().is_empty());
    assert_eq!(map.get(&"phrase 299".to_string()), Some(&"PHRASE 299".to_string()));
}

#[test]
fn at_most_five_requests_are_under_way() {
    let mut driver = Driver::new(unresolved_map(7 * 128));
    let mut under_way = Vec::new();
    for expected in 0..5 {
        match driver.next_action() {
            Action::Dispatch { batch, phrases } => {
                assert_eq!(batch, expected);
                under_way.push((batch, phrases));
            }
            other => panic!("expected a batch, got {:?}", other),
        }
    }
    assert_eq!(driver.next_action(), Action::Wait);
    assert_eq!(driver.next_action(), Action::Wait);
    // One reply frees one slot.
    let (batch, phrases) = under_way.remove(2);
    assert!(driver.complete(batch, Ok(upper(&phrases))));
    match driver.next_action() {
        Action::Dispatch { batch, .. } => assert_eq!(batch, 5),
        other => panic!("expected a batch, got {:?}", other),
    }
    assert_eq!(driver.next_action(), Action::Wait);
}

#[test]
fn replies_may_come_in_any_order() {
    let run = |order: &[usize]| -> PhraseMap {
        let mut driver = Driver::new(unresolved_map(3 * 128));
        let mut under_way = Vec::new();
        loop {
            match driver.next_action() {
                Action::Dispatch { batch, phrases } => under_way.push((batch, phrases)),
                Action::Wait => break,
                Action::Finished => panic!("replies are outstanding"),
            }
        }
        assert_eq!(under_way.len(), 3);
        for &k in order {
            let (batch, phrases) = &under_way[k];
            assert!(driver.complete(*batch, Ok(upper(phrases))));
        }
        assert_eq!(driver.next_action(), Action::Finished);
        driver.finish()
    };
    let in_order = run(&[0, 1, 2]);
    assert_eq!(run(&[2, 0, 1]), in_order);
    assert_eq!(run(&[1, 2, 0]), in_order);
    assert!(in_order.unresolved().is_empty());
}

#[test]
fn failed_batch_leaves_the_others_alone() {
    let mut driver = Driver::new(unresolved_map(200));
    let mut requests = 0;
    loop {
        match driver.next_action() {
            Action::Dispatch { batch, phrases } => {
                requests += 1;
                let reply = if batch == 1 {
                    Err(RemoteBatchError::Request)
                } else {
                    Ok(upper(&phrases))
                };
                assert!(driver.complete(batch, reply));
            }
            Action::Wait => panic!("nothing is under way"),
            Action::Finished => break,
        }
    }
    assert_eq!(requests, 2);
    let map = driver.finish();
    for (i, phrase) in numbered(200).iter().enumerate() {
        let expected = if i < 128 { phrase.to_uppercase() } else { "Error".to_string() };
        assert_eq!(map.get(phrase), Some(&expected));
    }
    assert!(map.unresolved().is_empty());
}

#[test]
fn reply_to_a_batch_that_is_not_under_way_is_refused() {
    let mut driver = Driver::new(unresolved_map(2));
    // Nothing went out yet.
    assert!(!driver.complete(0, Ok(vec!["A".to_string(), "B".to_string()])));
    let (batch, phrases) = match driver.next_action() {
        Action::Dispatch { batch, phrases } => (batch, phrases),
        other => panic!("expected a batch, got {:?}", other),
    };
    assert!(!driver.complete(7, Ok(upper(&phrases))));
    assert_eq!(driver.translations().unresolved().len(), 2);
    assert!(driver.complete(batch, Ok(upper(&phrases))));
    // A second reply to the same batch changes nothing.
    assert!(!driver.complete(batch, Err(RemoteBatchError::Decode)));
    assert_eq!(driver.next_action(), Action::Finished);
    assert_eq!(driver.finish().get(&"phrase 0".to_string()), Some(&"PHRASE 0".to_string()));
}

#[test]
fn resolved_map_needs_no_request() {
    let mut map = PhraseMap::new();
    map.insert("one".to_string(), "eins".to_string());
    let mut driver = Driver::new(map.clone());
    assert_eq!(driver.next_action(), Action::Finished);
    assert_eq!(driver.finish(), map);
}

#[test]
fn only_unresolved_phrases_go_out() {
    let mut map = PhraseMap::new();
    map.insert("one".to_string(), "eins".to_string());
    map.insert("two".to_string(), String::new());
    map.insert("three".to_string(), "drei".to_string());
    map.insert("four".to_string(), String::new());
    let mut driver = Driver::new(map);
    match driver.next_action() {
        Action::Dispatch { batch, phrases } => {
            assert_eq!(batch, 0);
            assert_eq!(phrases, vec!["two".to_string(), "four".to_string()]);
            assert!(driver.complete(batch, Ok(vec!["zwei".to_string(), "vier".to_string()])));
        }
        other => panic!("expected a batch, got {:?}", other),
    }
    assert_eq!(driver.next_action(), Action::Finished);
    let map = driver.finish();
    assert_eq!(map.get(&"one".to_string()), Some(&"eins".to_string()));
    assert_eq!(map.get(&"two".to_string()), Some(&"zwei".to_string()));
    assert_eq!(map.get(&"three".to_string()), Some(&"drei".to_string()));
    assert_eq!(map.get(&"four".to_string()), Some(&"vier".to_string()));
}
