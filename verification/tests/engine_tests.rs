use idioms::Idioms;

fn sorted(mut v: Vec<(String, i64)>) -> Vec<(String, i64)> {
    v.sort();
    v
}

#[test]
fn repeated_message_scores_exactly() {
    let mut engine = Idioms::new();
    engine.update("paris".to_string(), "alice".to_string(), "the cat sat".to_string());
    engine.update("paris".to_string(), "alice".to_string(), "the cat sat".to_string());
    let mut got = engine.idiom("alice".to_string());
    // first update: place weight 1 -> contribution (1.01 - 1) * 100 = 1
    // second update: place weight 2 -> contribution (1.01 - 2) * 100 = -99
    got.sort();
    let want = sorted(vec![
        ("the".to_string(), -98),
        ("cat".to_string(), -98),
        ("sat".to_string(), -98),
    ]);
    assert_eq!(got, want);
    for (token, _) in &got {
        assert!(!token.is_empty());
    }
}

#[test]
fn single_message_scores_one_per_token() {
    let mut engine = Idioms::new();
    engine.update("paris".to_string(), "alice".to_string(), "the cat sat".to_string());
    let mut got = engine.idiom("alice".to_string());
    got.sort();
    let want = sorted(vec![
        ("the".to_string(), 1),
        ("cat".to_string(), 1),
        ("sat".to_string(), 1),
    ]);
    assert_eq!(got, want);
}

#[test]
fn empty_message_yields_empty_idiom() {
    let mut engine = Idioms::new();
    engine.update("paris".to_string(), "alice".to_string(), String::new());
    assert_eq!(engine.idiom("alice".to_string()), Vec::<(String, i64)>::new());
    // the person entry itself is created even by an empty message
    assert_eq!(engine.people(), vec!["alice".to_string()]);
}

#[test]
fn unknown_person_yields_empty_idiom_and_no_listing() {
    let mut engine = Idioms::new();
    engine.update("paris".to_string(), "alice".to_string(), "hello there".to_string());
    assert_eq!(engine.idiom("bob".to_string()), Vec::<(String, i64)>::new());
    assert!(!engine.people().contains(&"bob".to_string()));
}

#[test]
fn person_listed_exactly_once() {
    let mut engine = Idioms::new();
    engine.update("paris".to_string(), "alice".to_string(), "one".to_string());
    engine.update("rome".to_string(), "alice".to_string(), "two".to_string());
    engine.update("paris".to_string(), "alice".to_string(), "three".to_string());
    engine.update("paris".to_string(), "bob".to_string(), "four".to_string());
    let mut people = engine.people();
    people.sort();
    assert_eq!(people, vec!["alice".to_string(), "bob".to_string()]);
}

#[test]
fn fresh_token_evicted_from_full_place_scores_full_contribution() {
    // fill the place profile to its capacity of 200 with weight-2 entries
    let mut words = Vec::new();
    for i in 0..200 {
        words.push(format!("w{}", i));
    }
    let message = words.join(" ");
    let mut engine = Idioms::new();
    engine.update("p".to_string(), "carol".to_string(), message.clone());
    engine.update("p".to_string(), "carol".to_string(), message);
    // the fresh token is the smallest-weight entry and is evicted at once,
    // so its post-update place weight reads 0: contribution (1.01 - 0) * 100
    engine.update("p".to_string(), "bob".to_string(), "zzz".to_string());
    assert_eq!(engine.idiom("bob".to_string()), vec![("zzz".to_string(), 101)]);
}

#[test]
fn person_profile_capped_at_capacity() {
    let mut words = Vec::new();
    for i in 0..200 {
        words.push(format!("w{}", i));
    }
    let message = words.join(" ");
    let mut engine = Idioms::new();
    engine.update("p".to_string(), "carol".to_string(), message);
    let got = engine.idiom("carol".to_string());
    assert_eq!(got.len(), 100);
}

#[test]
fn place_context_is_shared_between_people() {
    let mut engine = Idioms::new();
    engine.update("paris".to_string(), "alice".to_string(), "tower".to_string());
    // bob's use of the same token in the same place sees place weight 2
    engine.update("paris".to_string(), "bob".to_string(), "tower".to_string());
    assert_eq!(engine.idiom("alice".to_string()), vec![("tower".to_string(), 1)]);
    assert_eq!(engine.idiom("bob".to_string()), vec![("tower".to_string(), -99)]);
}

#[test]
fn distinct_places_keep_distinct_weights() {
    let mut engine = Idioms::new();
    engine.update("paris".to_string(), "alice".to_string(), "tower".to_string());
    // a different place starts from weight 0 for the same token
    engine.update("rome".to_string(), "bob".to_string(), "tower".to_string());
    assert_eq!(engine.idiom("bob".to_string()), vec![("tower".to_string(), 1)]);
}

#[test]
fn repeated_token_in_one_message_counts_once_with_full_count() {
    let mut engine = Idioms::new();
    engine.update("paris".to_string(), "alice".to_string(), "go go go".to_string());
    // one (token, count 3) pair: place weight 3 -> contribution 101 - 300
    assert_eq!(engine.idiom("alice".to_string()), vec![("go".to_string(), -199)]);
}
