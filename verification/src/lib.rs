//! Parser for a minimal term-rewriting surface language: words, parenthesized
//! quotes, and rewrite rules of the form `pattern = replacement ;`.
//!
//! Raw Unicode text is turned into an abstract syntax tree in a single pass.
//! Word membership is decided by Unicode general-category classification,
//! quotes nest without bound, and malformed input is reported with the
//! character offset of the first point of failure together with what was
//! expected there.

pub mod ast;
pub mod classify;
pub mod grammar;
pub mod parser;
pub mod serialize;

pub use ast::{rule_eq, term_eq, terms_eq, Expected, Rule, RuleV, SyntaxError, Term, TermV};
pub use classify::{classify, CharClass};
pub use parser::{parse_rule, parse_rules, parse_term, parse_terms};
pub use serialize::{
    check_rule, check_rules, check_term, check_terms, serialize_rule, serialize_rules,
    serialize_term, serialize_terms, try_serialize_rule, try_serialize_rules, try_serialize_term,
    try_serialize_terms,
};
