//! The grammar of the surface language as a mathematical function from an
//! input (a sequence of characters) and a position to a parse result.
//!
//! ```text
//! term      := WORD | '(' terms ')'
//! terms     := SEP? (term SEP?)*
//! rule      := terms '=' terms ';'
//! rules     := SEP? (rule SEP?)*
//! ```
//!
//! A word is tried before a quote; both alternatives are rejected without
//! consuming input exactly when neither a word character nor `(` is next, so
//! a sequence ends at the first position where no term (or rule) can start.
//! A failure inside a committed alternative (after input was consumed) is
//! final and carries the position where parsing stopped.

use vstd::prelude::*;

use crate::ast::{
    lemma_wf_terms_index, wf_rule, wf_rules, wf_term, wf_terms, ErrV, Expected, RuleV, TermV,
};
use crate::classify::{sep_char, word_char};

verus! {

/// Index just past the maximal run of separator characters starting at `i`.
pub open spec fn skip_seps(s: Seq<char>, i: int) -> int
    decreases s.len() - i,
{
    if 0 <= i < s.len() && sep_char(s[i]) {
        skip_seps(s, i + 1)
    } else {
        i
    }
}

/// Index just past the maximal run of word characters starting at `i`.
pub open spec fn word_end(s: Seq<char>, i: int) -> int
    decreases s.len() - i,
{
    if 0 <= i < s.len() && word_char(s[i]) {
        word_end(s, i + 1)
    } else {
        i
    }
}

/// Whether a term can begin at position `i`: a word character or `(`.
pub open spec fn can_start_term(s: Seq<char>, i: int) -> bool {
    0 <= i < s.len() && (word_char(s[i]) || s[i] == '(')
}

/// Whether the rule grammar consumes at least one character at position
/// `i`, assuming no separator is there: a pattern term can start, or the
/// pattern is empty and `=` is next.
pub open spec fn can_start_rule(s: Seq<char>, i: int) -> bool {
    0 <= i < s.len() && (word_char(s[i]) || s[i] == '(' || s[i] == '=')
}

/// The term grammar at position `i`: a word if a word character is next,
/// otherwise a quote if `(` is next, otherwise failure at `i`.
pub open spec fn sp_term(s: Seq<char>, i: int) -> Result<(TermV, int), ErrV>
    decreases s.len() - i, 0int,
{
    if 0 <= i < s.len() && word_char(s[i]) {
        Ok((TermV::Word(s.subrange(i, word_end(s, i))), word_end(s, i)))
    } else if 0 <= i < s.len() && s[i] == '(' {
        match sp_terms(s, i + 1) {
            Ok((ts, j)) => {
                if 0 <= j < s.len() && s[j] == ')' {
                    Ok((TermV::Quote(ts), j + 1))
                } else {
                    Err(ErrV { pos: j, expected: Expected::CloseParen })
                }
            },
            Err(e) => Err(e),
        }
    } else {
        Err(ErrV { pos: i, expected: Expected::WordOrOpenParen })
    }
}

/// The term-sequence grammar at position `i`: skip separators, then terms
/// each followed by optional separators, until no term can start.
///
/// The bounds placed on `j` and `k` only serve the `decreases` check; they
/// never change the value, since skipping separators cannot move backward
/// and a successful term parse always advances (`lemma_skip_seps_bounds`
/// and `lemma_sp_term_bounds` below).
pub open spec fn sp_terms(s: Seq<char>, i: int) -> Result<(Seq<TermV>, int), ErrV>
    decreases s.len() - i, 1int,
{
    let j0 = skip_seps(s, i);
    let j = if j0 < i { i } else { j0 };
    if can_start_term(s, j) {
        match sp_term(s, j) {
            Ok((t, k0)) => {
                let k = if k0 <= j {
                    j + 1
                } else if k0 > s.len() {
                    s.len() as int
                } else {
                    k0
                };
                match sp_terms(s, k) {
                    Ok((ts, m)) => Ok((seq![t] + ts, m)),
                    Err(e) => Err(e),
                }
            },
            Err(e) => Err(e),
        }
    } else {
        Ok((Seq::empty(), j))
    }
}

/// The rule grammar at position `i`: a pattern term-sequence, `=`, a
/// replacement term-sequence, `;`.
pub open spec fn sp_rule(s: Seq<char>, i: int) -> Result<(RuleV, int), ErrV>
    decreases s.len() - i, 2int,
{
    match sp_terms(s, i) {
        Ok((pat, j)) => {
            if 0 <= j < s.len() && s[j] == '=' {
                match sp_terms(s, j + 1) {
                    Ok((rep, k)) => {
                        if 0 <= k < s.len() && s[k] == ';' {
                            Ok((RuleV { pattern: pat, replacement: rep }, k + 1))
                        } else {
                            Err(ErrV { pos: k, expected: Expected::Semicolon })
                        }
                    },
                    Err(e) => Err(e),
                }
            } else {
                Err(ErrV { pos: j, expected: Expected::EqualSign })
            }
        },
        Err(e) => Err(e),
    }
}

/// The rule-sequence grammar at position `i`: skip separators, then rules
/// each followed by optional separators, until no rule can start. The
/// bounds on `j` and `k` serve the `decreases` check only, as in
/// `sp_terms`.
pub open spec fn sp_rules(s: Seq<char>, i: int) -> Result<(Seq<RuleV>, int), ErrV>
    decreases s.len() - i, 3int,
{
    let j0 = skip_seps(s, i);
    let j = if j0 < i { i } else { j0 };
    if can_start_rule(s, j) {
        match sp_rule(s, j) {
            Ok((r, k0)) => {
                let k = if k0 <= j {
                    j + 1
                } else if k0 > s.len() {
                    s.len() as int
                } else {
                    k0
                };
                match sp_rules(s, k) {
                    Ok((rs, m)) => Ok((seq![r] + rs, m)),
                    Err(e) => Err(e),
                }
            },
            Err(e) => Err(e),
        }
    } else {
        Ok((Seq::empty(), j))
    }
}

/// A complete parse of one term: the whole input must be consumed, with no
/// trailing characters (not even separators) after the term.
pub open spec fn sp_parse_term(s: Seq<char>) -> Result<TermV, ErrV> {
    match sp_term(s, 0) {
        Ok((t, j)) => {
            if j == s.len() {
                Ok(t)
            } else {
                Err(ErrV { pos: j, expected: Expected::EndOfInput })
            }
        },
        Err(e) => Err(e),
    }
}

/// A complete parse of a term sequence; trailing separators are consumed by
/// the sequence grammar itself.
pub open spec fn sp_parse_terms(s: Seq<char>) -> Result<Seq<TermV>, ErrV> {
    match sp_terms(s, 0) {
        Ok((ts, j)) => {
            if j == s.len() {
                Ok(ts)
            } else {
                Err(ErrV { pos: j, expected: Expected::EndOfInput })
            }
        },
        Err(e) => Err(e),
    }
}

/// A complete parse of one rule: the input must end right after the `;`.
pub open spec fn sp_parse_rule(s: Seq<char>) -> Result<RuleV, ErrV> {
    match sp_rule(s, 0) {
        Ok((r, j)) => {
            if j == s.len() {
                Ok(r)
            } else {
                Err(ErrV { pos: j, expected: Expected::EndOfInput })
            }
        },
        Err(e) => Err(e),
    }
}

/// A complete parse of a rule sequence; trailing separators are consumed by
/// the sequence grammar itself.
pub open spec fn sp_parse_rules(s: Seq<char>) -> Result<Seq<RuleV>, ErrV> {
    match sp_rules(s, 0) {
        Ok((rs, j)) => {
            if j == s.len() {
                Ok(rs)
            } else {
                Err(ErrV { pos: j, expected: Expected::EndOfInput })
            }
        },
        Err(e) => Err(e),
    }
}

/// Parsing is pure: the result of a complete parse is a function of the
/// input characters alone, so two parses of equal inputs yield equal
/// results. Each entry point's contract equates its result with the
/// corresponding function here, which is what makes this more than a
/// tautology.
pub proof fn lemma_parsing_deterministic(
    s1: Seq<char>,
    s2: Seq<char>,
    r1: Result<TermV, ErrV>,
    r2: Result<TermV, ErrV>,
)
    requires
        s1 == s2,
        r1 == sp_parse_term(s1),
        r2 == sp_parse_term(s2),
    ensures
        r1 == r2,
{
}

/// Skipping separators stays within the input and never moves backward.
pub proof fn lemma_skip_seps_bounds(s: Seq<char>, i: int)
    requires
        0 <= i <= s.len(),
    ensures
        i <= skip_seps(s, i) <= s.len(),
    decreases s.len() - i,
{
    if i < s.len() && sep_char(s[i]) {
        lemma_skip_seps_bounds(s, i + 1);
    }
}

/// A word run stays within the input and never moves backward.
pub proof fn lemma_word_end_bounds(s: Seq<char>, i: int)
    requires
        0 <= i <= s.len(),
    ensures
        i <= word_end(s, i) <= s.len(),
    decreases s.len() - i,
{
    if i < s.len() && word_char(s[i]) {
        lemma_word_end_bounds(s, i + 1);
    }
}

/// A successful term parse consumes at least one character and stays within
/// the input.
pub proof fn lemma_sp_term_bounds(s: Seq<char>, i: int)
    requires
        0 <= i <= s.len(),
    ensures
        sp_term(s, i) matches Ok((t, k)) ==> i < k <= s.len(),
    decreases s.len() - i, 0int,
{
    if 0 <= i < s.len() && word_char(s[i]) {
        lemma_word_end_bounds(s, i + 1);
    } else if 0 <= i < s.len() && s[i] == '(' {
        lemma_sp_terms_bounds(s, i + 1);
    }
}

/// A successful term-sequence parse never moves backward and stays within
/// the input.
pub proof fn lemma_sp_terms_bounds(s: Seq<char>, i: int)
    requires
        0 <= i <= s.len(),
    ensures
        sp_terms(s, i) matches Ok((ts, k)) ==> i <= k <= s.len(),
    decreases s.len() - i, 1int,
{
    lemma_skip_seps_bounds(s, i);
    let j = skip_seps(s, i);
    if can_start_term(s, j) {
        lemma_sp_term_bounds(s, j);
        if let Ok((t, k)) = sp_term(s, j) {
            lemma_sp_terms_bounds(s, k);
        }
    }
}

/// A successful rule parse consumes at least one character (the `;` at the
/// very least) and stays within the input.
pub proof fn lemma_sp_rule_bounds(s: Seq<char>, i: int)
    requires
        0 <= i <= s.len(),
    ensures
        sp_rule(s, i) matches Ok((r, k)) ==> i < k <= s.len(),
    decreases s.len() - i, 2int,
{
    lemma_sp_terms_bounds(s, i);
    if let Ok((pat, j)) = sp_terms(s, i) {
        if 0 <= j < s.len() && s[j] == '=' {
            lemma_sp_terms_bounds(s, j + 1);
        }
    }
}

/// A separator run ends at the end of input or at a non-separator, so
/// skipping separators is idempotent.
pub proof fn lemma_skip_seps_stop(s: Seq<char>, i: int)
    requires
        0 <= i <= s.len(),
    ensures
        skip_seps(s, i) == s.len() || !sep_char(s[skip_seps(s, i)]),
        skip_seps(s, skip_seps(s, i)) == skip_seps(s, i),
    decreases s.len() - i,
{
    lemma_skip_seps_bounds(s, i);
    if i < s.len() && sep_char(s[i]) {
        lemma_skip_seps_stop(s, i + 1);
    }
}

/// A word run consists of word characters and ends at the end of input or
/// at a non-word character.
pub proof fn lemma_word_end_chars(s: Seq<char>, i: int)
    requires
        0 <= i <= s.len(),
    ensures
        forall|m: int| i <= m < word_end(s, i) ==> word_char(s[m]),
        word_end(s, i) == s.len() || !word_char(s[word_end(s, i)]),
    decreases s.len() - i,
{
    lemma_word_end_bounds(s, i);
    if i < s.len() && word_char(s[i]) {
        lemma_word_end_chars(s, i + 1);
    }
}

/// A term produced by the grammar is well-formed: its words are non-empty
/// runs of word characters.
pub proof fn lemma_sp_term_wf(s: Seq<char>, i: int)
    requires
        0 <= i <= s.len(),
    ensures
        sp_term(s, i) matches Ok((t, k)) ==> wf_term(t),
    decreases s.len() - i, 0int,
{
    if 0 <= i < s.len() && word_char(s[i]) {
        lemma_word_end_bounds(s, i);
        lemma_word_end_chars(s, i);
        let w = s.subrange(i, word_end(s, i));
        assert(word_end(s, i) > i);
        assert forall|m: int| 0 <= m < w.len() implies word_char(w[m]) by {
            assert(w[m] == s[i + m]);
        }
    } else if 0 <= i < s.len() && s[i] == '(' {
        lemma_sp_terms_wf(s, i + 1);
    }
}

/// Every term in a sequence produced by the grammar is well-formed.
pub proof fn lemma_sp_terms_wf(s: Seq<char>, i: int)
    requires
        0 <= i <= s.len(),
    ensures
        sp_terms(s, i) matches Ok((ts, k)) ==> wf_terms(ts),
    decreases s.len() - i, 1int,
{
    lemma_skip_seps_bounds(s, i);
    let j = skip_seps(s, i);
    if can_start_term(s, j) {
        lemma_sp_term_bounds(s, j);
        lemma_sp_term_wf(s, j);
        if let Ok((t, k)) = sp_term(s, j) {
            lemma_sp_terms_wf(s, k);
            lemma_sp_terms_bounds(s, k);
            if let Ok((ts, m)) = sp_terms(s, k) {
                lemma_wf_terms_index(ts);
                lemma_wf_terms_index(seq![t] + ts);
                assert forall|q: int| 0 <= q < (seq![t] + ts).len() implies #[trigger] wf_term(
                    (seq![t] + ts)[q],
                ) by {
                    if q > 0 {
                        assert((seq![t] + ts)[q] == ts[q - 1]);
                    }
                }
            }
        }
    }
}

/// A successful rule-sequence parse never moves backward and stays within
/// the input.
pub proof fn lemma_sp_rules_bounds(s: Seq<char>, i: int)
    requires
        0 <= i <= s.len(),
    ensures
        sp_rules(s, i) matches Ok((rs, k)) ==> i <= k <= s.len(),
    decreases s.len() - i, 3int,
{
    lemma_skip_seps_bounds(s, i);
    let j = skip_seps(s, i);
    if can_start_rule(s, j) {
        lemma_sp_rule_bounds(s, j);
        if let Ok((r, k)) = sp_rule(s, j) {
            lemma_sp_rules_bounds(s, k);
        }
    }
}

/// A rule produced by the grammar is well-formed on both sides.
pub proof fn lemma_sp_rule_wf(s: Seq<char>, i: int)
    requires
        0 <= i <= s.len(),
    ensures
        sp_rule(s, i) matches Ok((r, k)) ==> wf_rule(r),
    decreases s.len() - i, 2int,
{
    lemma_sp_terms_bounds(s, i);
    lemma_sp_terms_wf(s, i);
    if let Ok((pat, j)) = sp_terms(s, i) {
        if 0 <= j < s.len() && s[j] == '=' {
            lemma_sp_terms_wf(s, j + 1);
        }
    }
}

/// Every rule in a sequence produced by the grammar is well-formed.
pub proof fn lemma_sp_rules_wf(s: Seq<char>, i: int)
    requires
        0 <= i <= s.len(),
    ensures
        sp_rules(s, i) matches Ok((rs, k)) ==> wf_rules(rs),
    decreases s.len() - i, 3int,
{
    lemma_skip_seps_bounds(s, i);
    let j = skip_seps(s, i);
    if can_start_rule(s, j) {
        lemma_sp_rule_bounds(s, j);
        lemma_sp_rule_wf(s, j);
        if let Ok((r, k)) = sp_rule(s, j) {
            lemma_sp_rules_wf(s, k);
            lemma_sp_rules_bounds(s, k);
            if let Ok((rs, m)) = sp_rules(s, k) {
                assert forall|q: int| 0 <= q < (seq![r] + rs).len() implies #[trigger] wf_rule(
                    (seq![r] + rs)[q],
                ) by {
                    if q > 0 {
                        assert((seq![r] + rs)[q] == rs[q - 1]);
                    }
                }
            }
        }
    }
}

/// Skipping separators from anywhere in an all-separator input reaches the
/// end of the input.
proof fn lemma_skip_seps_all(s: Seq<char>, i: int)
    requires
        0 <= i <= s.len(),
        forall|q: int| 0 <= q < s.len() ==> sep_char(#[trigger] s[q]),
    ensures
        skip_seps(s, i) == s.len(),
    decreases s.len() - i,
{
    if i < s.len() {
        lemma_skip_seps_all(s, i + 1);
    }
}

/// An input consisting solely of separator characters (the empty input
/// included) parses as the empty term sequence and as the empty rule
/// sequence.
pub proof fn lemma_all_separators(s: Seq<char>)
    requires
        forall|q: int| 0 <= q < s.len() ==> sep_char(#[trigger] s[q]),
    ensures
        sp_parse_terms(s) == Ok::<Seq<TermV>, ErrV>(Seq::<TermV>::empty()),
        sp_parse_rules(s) == Ok::<Seq<RuleV>, ErrV>(Seq::<RuleV>::empty()),
{
    lemma_skip_seps_all(s, 0);
}

} // verus!
