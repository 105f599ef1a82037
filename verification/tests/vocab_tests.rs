use idioms::Vocab;

#[test]
fn interning_is_idempotent() {
    let mut v = Vocab::new();
    let first = v.resolve(&"the".to_string());
    let second = v.resolve(&"the".to_string());
    assert_eq!(first, second);
    assert_eq!(first, 1);
}

#[test]
fn index_zero_only_for_empty_string() {
    let mut v = Vocab::new();
    assert_eq!(v.resolve(&String::new()), 0);
    assert_ne!(v.resolve(&"word".to_string()), 0);
    assert_eq!(v.resolve(&String::new()), 0);
}

#[test]
fn fresh_tokens_get_increasing_indices_from_one() {
    let mut v = Vocab::new();
    assert_eq!(v.resolve(&"a".to_string()), 1);
    assert_eq!(v.resolve(&"b".to_string()), 2);
    assert_eq!(v.resolve(&"c".to_string()), 3);
    // re-resolving keeps the old assignments
    assert_eq!(v.resolve(&"a".to_string()), 1);
    assert_eq!(v.resolve(&"b".to_string()), 2);
    assert_eq!(v.len(), 4);
}

#[test]
fn token_at_inverts_resolve() {
    let mut v = Vocab::new();
    let i = v.resolve(&"hello".to_string());
    assert_eq!(v.token_at(i), Some(&"hello".to_string()));
    assert_eq!(v.token_at(99), None);
}

#[test]
fn tokens_are_case_sensitive() {
    let mut v = Vocab::new();
    let lower = v.resolve(&"word".to_string());
    let upper = v.resolve(&"Word".to_string());
    assert_ne!(lower, upper);
}
