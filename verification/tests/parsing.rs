use mlatu::{parse_rule, parse_rules, parse_term, parse_terms, term_eq, Expected, Term};

#[test]
fn empty_input_is_empty_sequence() {
    let ts = parse_terms("").unwrap();
    assert_eq!(ts.len(), 0);
}

#[test]
fn all_separator_input_is_empty_sequence() {
    let ts = parse_terms("   ").unwrap();
    assert_eq!(ts.len(), 0);
    let rs = parse_rules("  ").unwrap();
    assert_eq!(rs.len(), 0);
}

#[test]
fn single_word() {
    match parse_term("abc") {
        Ok(Term::Word(w)) => assert_eq!(w, "abc"),
        other => panic!("expected a word, got {:?}", other),
    }
}

#[test]
fn flat_quote() {
    match parse_term("(abc def)") {
        Ok(Term::Quote(ts)) => {
            assert_eq!(ts.len(), 2);
            match &ts[0] {
                Term::Word(w) => assert_eq!(w, "abc"),
                other => panic!("expected a word, got {:?}", other),
            }
            match &ts[1] {
                Term::Word(w) => assert_eq!(w, "def"),
                other => panic!("expected a word, got {:?}", other),
            }
        },
        other => panic!("expected a quote, got {:?}", other),
    }
}

#[test]
fn nested_quote() {
    match parse_term("(a (b) c)") {
        Ok(Term::Quote(ts)) => {
            assert_eq!(ts.len(), 3);
            match &ts[0] {
                Term::Word(w) => assert_eq!(w, "a"),
                other => panic!("expected a word, got {:?}", other),
            }
            match &ts[1] {
                Term::Quote(inner) => {
                    assert_eq!(inner.len(), 1);
                    match &inner[0] {
                        Term::Word(w) => assert_eq!(w, "b"),
                        other => panic!("expected a word, got {:?}", other),
                    }
                },
                other => panic!("expected a quote, got {:?}", other),
            }
            match &ts[2] {
                Term::Word(w) => assert_eq!(w, "c"),
                other => panic!("expected a word, got {:?}", other),
            }
        },
        other => panic!("expected a quote, got {:?}", other),
    }
}

#[test]
fn empty_quote() {
    match parse_term("()") {
        Ok(Term::Quote(ts)) => assert_eq!(ts.len(), 0),
        other => panic!("expected an empty quote, got {:?}", other),
    }
}

#[test]
fn adjacent_terms_need_no_separator() {
    let ts = parse_terms("a(b)c").unwrap();
    assert_eq!(ts.len(), 3);
}

#[test]
fn simple_rule() {
    let r = parse_rule("a = b ;").unwrap();
    assert_eq!(r.pattern.len(), 1);
    assert_eq!(r.replacement.len(), 1);
    match &r.pattern[0] {
        Term::Word(w) => assert_eq!(w, "a"),
        other => panic!("expected a word, got {:?}", other),
    }
    match &r.replacement[0] {
        Term::Word(w) => assert_eq!(w, "b"),
        other => panic!("expected a word, got {:?}", other),
    }
}

#[test]
fn rule_sides_may_be_empty() {
    let r = parse_rule("= ;").unwrap();
    assert_eq!(r.pattern.len(), 0);
    assert_eq!(r.replacement.len(), 0);
}

#[test]
fn several_rules() {
    let rs = parse_rules("a = b ; c d = e ;").unwrap();
    assert_eq!(rs.len(), 2);
    assert_eq!(rs[0].pattern.len(), 1);
    assert_eq!(rs[1].pattern.len(), 2);
}

#[test]
fn unterminated_quote_fails_at_end_of_input() {
    let e = parse_term("(a").unwrap_err();
    assert_eq!(e.position, 2);
    assert_eq!(e.expected, Expected::CloseParen);
}

#[test]
fn trailing_input_fails_at_the_extra_character() {
    let e = parse_term("a)").unwrap_err();
    assert_eq!(e.position, 1);
    assert_eq!(e.expected, Expected::EndOfInput);
}

#[test]
fn missing_semicolon_fails_at_end_of_input() {
    let e = parse_rule("a = b").unwrap_err();
    assert_eq!(e.position, 5);
    assert_eq!(e.expected, Expected::Semicolon);
}

#[test]
fn missing_equal_sign_fails() {
    let e = parse_rule("a b ;").unwrap_err();
    assert_eq!(e.position, 4);
    assert_eq!(e.expected, Expected::EqualSign);
}

#[test]
fn isolated_reserved_character_fails() {
    let e = parse_term("=").unwrap_err();
    assert_eq!(e.position, 0);
    assert_eq!(e.expected, Expected::WordOrOpenParen);
    let e = parse_term(")").unwrap_err();
    assert_eq!(e.position, 0);
    let e = parse_terms("a ) b").unwrap_err();
    assert_eq!(e.position, 2);
    assert_eq!(e.expected, Expected::EndOfInput);
}

#[test]
fn reserved_characters_split_words() {
    let e = parse_terms("a=b").unwrap_err();
    assert_eq!(e.position, 1);
    assert_eq!(e.expected, Expected::EndOfInput);
}

#[test]
fn trailing_separator_after_term_fails() {
    let e = parse_term("a ").unwrap_err();
    assert_eq!(e.position, 1);
    assert_eq!(e.expected, Expected::EndOfInput);
    let ts = parse_terms("a ").unwrap();
    assert_eq!(ts.len(), 1);
}

#[test]
fn parsing_twice_gives_equal_results() {
    let a = parse_term("(a (b) c)").unwrap();
    let b = parse_term("(a (b) c)").unwrap();
    assert!(term_eq(&a, &b));
    let e1 = parse_rule("a = b").unwrap_err();
    let e2 = parse_rule("a = b").unwrap_err();
    assert_eq!(e1, e2);
}
