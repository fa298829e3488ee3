use sightnet_core::term::Term;
use sightnet_core::tokenizer::{split_words, tokenize};

#[test]
fn test_tokenize() {
    assert_eq!(
        tokenize("Hello, world!"),
        vec!["hello".into(), "world".into()]
    );
}

#[test]
fn tokenize_empty_text_has_no_terms() {
    assert!(tokenize("").is_empty());
    assert!(tokenize(" ,.!:? ").is_empty());
}

#[test]
fn consecutive_separators_give_no_empty_terms() {
    let terms = tokenize("fox,,, ..dog!!");
    assert_eq!(terms, vec![Term::from("fox"), Term::from("dog")]);
    assert!(terms.iter().all(|t| !t.value.is_empty()));
}

#[test]
fn tokenize_trims_lowercases_and_stems() {
    let terms = tokenize("\tRunning Foxes?JUMPED\n");
    assert_eq!(
        terms,
        vec![Term::from("run"), Term::from("fox"), Term::from("jump")]
    );
}

#[test]
fn tokenize_keeps_order_and_duplicates() {
    let terms = tokenize("quick quick fox");
    assert_eq!(
        terms,
        vec![Term::from("quick"), Term::from("quick"), Term::from("fox")]
    );
}

#[test]
fn tokenize_does_not_split_on_other_characters() {
    let terms = tokenize("state-of-the-art;x");
    assert_eq!(terms.len(), 1);
    assert_eq!(terms[0].value, "state-of-the-art;x");
}

#[test]
fn split_words_trims_and_drops_empty_pieces() {
    assert_eq!(split_words("  Hello,\tWorld!! "), vec!["Hello".to_string(), "World".to_string()]);
    assert!(split_words("").is_empty());
    assert!(split_words("?!").is_empty());
}
