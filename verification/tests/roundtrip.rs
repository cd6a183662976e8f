use mlatu::{
    parse_term, parse_terms, rule_eq, serialize_term, serialize_terms, term_eq, terms_eq,
    try_serialize_term, Term,
};

#[test]
fn serialize_word() {
    let t = parse_term("abc").unwrap();
    assert_eq!(serialize_term(&t), "abc");
}

#[test]
fn serialize_nested_quote() {
    let t = parse_term("(a (b) c)").unwrap();
    assert_eq!(serialize_term(&t), "(a (b) c)");
}

#[test]
fn serialize_strips_extra_separators() {
    let ts = parse_terms("  a   (b  c) ").unwrap();
    assert_eq!(serialize_terms(&ts), "a (b c)");
}

#[test]
fn round_trip_restores_the_tree() {
    let t = parse_term("(a (b ()) c)").unwrap();
    let text = serialize_term(&t);
    let back = parse_term(&text).unwrap();
    assert!(term_eq(&t, &back));
    assert_eq!(serialize_term(&back), text);
}

#[test]
fn round_trip_of_term_sequence() {
    let ts = parse_terms("a (b c) d").unwrap();
    let text = serialize_terms(&ts);
    assert_eq!(text, "a (b c) d");
    let back = parse_terms(&text).unwrap();
    assert!(terms_eq(&ts, &back));
}

#[test]
fn ill_formed_words_cannot_be_serialized() {
    assert!(try_serialize_term(&Term::Word(String::new())).is_none());
    assert!(try_serialize_term(&Term::Word("a b".to_string())).is_none());
    assert!(try_serialize_term(&Term::Word("a;b".to_string())).is_none());
    assert!(try_serialize_term(&Term::Quote(vec![Term::Word("(".to_string())])).is_none());
}

#[test]
fn well_formed_terms_serialize() {
    let out = try_serialize_term(&Term::Word("ab".to_string())).unwrap();
    assert_eq!(out, "ab");
    let out = try_serialize_term(&Term::Quote(vec![
        Term::Word("x".to_string()),
        Term::Quote(vec![]),
    ]))
    .unwrap();
    assert_eq!(out, "(x ())");
}

#[test]
fn try_serialize_terms_checks_every_term() {
    let good = vec![Term::Word("a".to_string()), Term::Word("b".to_string())];
    assert_eq!(mlatu::try_serialize_terms(&good).unwrap(), "a b");
    let bad = vec![Term::Word("a".to_string()), Term::Word(String::new())];
    assert!(mlatu::try_serialize_terms(&bad).is_none());
}

#[test]
fn constructors_build_the_same_trees_as_parsing() {
    let built = Term::new_quote(vec![
        Term::new_word("a".to_string()),
        Term::new_quote(vec![Term::new_word("b".to_string())]),
        Term::new_word("c".to_string()),
    ]);
    let parsed = parse_term("(a (b) c)").unwrap();
    assert!(term_eq(&built, &parsed));
    let rule = mlatu::Rule::new(
        vec![Term::new_word("a".to_string())],
        vec![Term::new_word("b".to_string())],
    );
    let parsed_rule = mlatu::parse_rule("a = b ;").unwrap();
    assert!(rule_eq(&rule, &parsed_rule));
}

#[test]
fn round_trip_of_rules() {
    let rs = mlatu::parse_rules("a b = (c) ; = x ;").unwrap();
    let text = mlatu::serialize_rules(&rs);
    assert_eq!(text, "a b=(c); =x;");
    let back = mlatu::parse_rules(&text).unwrap();
    assert_eq!(back.len(), rs.len());
    assert!(rule_eq(&rs[0], &back[0]));
    assert!(rule_eq(&rs[1], &back[1]));
}

#[test]
fn try_serialize_rules_checks_both_sides() {
    let good = mlatu::Rule::new(vec![Term::Word("a".to_string())], vec![]);
    assert_eq!(mlatu::try_serialize_rule(&good).unwrap(), "a=;");
    let bad = mlatu::Rule::new(vec![], vec![Term::Word(")".to_string())]);
    assert!(mlatu::try_serialize_rule(&bad).is_none());
    assert!(mlatu::try_serialize_rules(&vec![good, bad]).is_none());
}
