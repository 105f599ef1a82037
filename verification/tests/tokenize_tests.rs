use idioms::tokenize;

#[test]
fn counts_accumulate_in_first_seen_order() {
    let got = tokenize(&"the cat sat the".to_string());
    assert_eq!(
        got,
        vec![("the".to_string(), 2), ("cat".to_string(), 1), ("sat".to_string(), 1)]
    );
}

#[test]
fn punctuation_separates_tokens() {
    let got = tokenize(&"a-b,c! c".to_string());
    assert_eq!(
        got,
        vec![("a".to_string(), 1), ("b".to_string(), 1), ("c".to_string(), 2)]
    );
}

#[test]
fn empty_text_has_no_tokens() {
    assert_eq!(tokenize(&String::new()), Vec::<(String, usize)>::new());
}

#[test]
fn punctuation_only_text_has_no_tokens() {
    assert_eq!(tokenize(&"!?.,;: --".to_string()), Vec::<(String, usize)>::new());
}

#[test]
fn digits_and_underscore_are_word_characters() {
    let got = tokenize(&"x_1 x_1 42".to_string());
    assert_eq!(got, vec![("x_1".to_string(), 2), ("42".to_string(), 1)]);
}
