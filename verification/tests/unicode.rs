use mlatu::{classify, parse_term, parse_terms, CharClass, Expected, Term};

#[test]
fn classify_basic_characters() {
    assert_eq!(classify('a'), CharClass::WordComponent);
    assert_eq!(classify('7'), CharClass::WordComponent);
    assert_eq!(classify('+'), CharClass::WordComponent);
    assert_eq!(classify(','), CharClass::WordComponent);
    assert_eq!(classify(' '), CharClass::Separator);
    assert_eq!(classify('('), CharClass::Reserved);
    assert_eq!(classify(')'), CharClass::Reserved);
    assert_eq!(classify(';'), CharClass::Reserved);
    assert_eq!(classify('='), CharClass::Reserved);
    assert_eq!(classify('\u{0}'), CharClass::Other);
    assert_eq!(classify('\t'), CharClass::Other);
}

#[test]
fn classify_beyond_ascii() {
    assert_eq!(classify('\u{3b1}'), CharClass::WordComponent);
    assert_eq!(classify('\u{4e2d}'), CharClass::WordComponent);
    assert_eq!(classify('\u{20ac}'), CharClass::WordComponent);
    assert_eq!(classify('\u{3000}'), CharClass::Separator);
    assert_eq!(classify('\u{2028}'), CharClass::Separator);
    assert_eq!(classify('\u{301}'), CharClass::Other);
}

#[test]
fn words_may_mix_scripts_and_symbols() {
    match parse_term("\u{3b1}\u{3b2}-7") {
        Ok(Term::Word(w)) => assert_eq!(w, "\u{3b1}\u{3b2}-7"),
        other => panic!("expected a word, got {:?}", other),
    }
}

#[test]
fn unicode_separators_delimit_tokens() {
    let ts = parse_terms("a\u{3000}b").unwrap();
    assert_eq!(ts.len(), 2);
    match &ts[1] {
        Term::Word(w) => assert_eq!(w, "b"),
        other => panic!("expected a word, got {:?}", other),
    }
}

#[test]
fn control_characters_are_rejected() {
    let e = parse_term("\u{1}").unwrap_err();
    assert_eq!(e.position, 0);
    assert_eq!(e.expected, Expected::WordOrOpenParen);
}

#[test]
fn combining_mark_ends_a_word_and_fails() {
    let e = parse_term("a\u{301}b").unwrap_err();
    assert_eq!(e.position, 1);
    assert_eq!(e.expected, Expected::EndOfInput);
}

#[test]
fn positions_count_characters_not_bytes() {
    let e = parse_term("\u{3b1}\u{3b2})").unwrap_err();
    assert_eq!(e.position, 2);
    assert_eq!(e.expected, Expected::EndOfInput);
}
