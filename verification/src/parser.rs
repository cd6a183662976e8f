//! The executable parser: a recursive-descent reading of the grammar in
//! `crate::grammar`, over a character vector with a position cursor. Each
//! function returns exactly what the corresponding grammar function says,
//! including the position and expectation of the first failure.

use vstd::prelude::*;
use vstd::string::StrSliceExecFns;

use crate::ast::{
    lemma_terms_view_index, rules_view, terms_view, wf_rule, wf_rules, wf_term, wf_terms, ErrV, Expected,
    Rule, RuleV, SyntaxError, Term, TermV,
};
use crate::classify::{classify, sep_char, word_char, CharClass};
use crate::grammar::{
    can_start_rule, can_start_term, lemma_all_separators, lemma_skip_seps_stop, lemma_sp_rule_wf,
    lemma_sp_rules_wf, lemma_sp_term_wf, lemma_sp_terms_wf, lemma_word_end_bounds, skip_seps,
    sp_parse_rule, sp_parse_rules, sp_parse_term, sp_parse_terms, sp_rule, sp_rules, sp_term,
    sp_terms, word_end,
};

verus! {

/// The characters of a string, in order, as a vector.
pub(crate) fn str_to_chars(input: &str) -> (v: Vec<char>)
    ensures
        v@ == input@,
{
    let n = input.unicode_len();
    let mut v: Vec<char> = Vec::new();
    let mut i: usize = 0;
    while i < n
        invariant
            i <= n,
            n == input@.len(),
            v@ == input@.subrange(0, i as int),
        decreases n - i,
    {
        v.push(input.get_char(i));
        proof {
            assert(input@.subrange(0, (i + 1) as int) =~= input@.subrange(0, i as int).push(
                input@[i as int],
            ));
        }
        i = i + 1;
    }
    proof {
        assert(v@ =~= input@);
    }
    v
}

/// Relies on `String::push`, which appends the given character to the end
/// of the string.
#[verifier::external_body]
pub(crate) fn push_char(s: &mut String, c: char)
    ensures
        final(s)@ == old(s)@.push(c),
{
    s.push(c);
}

/// The substring of `s` from `i` (inclusive) to `j` (exclusive), as an
/// owned string.
fn build_word(s: &Vec<char>, i: usize, j: usize) -> (w: String)
    requires
        i <= j && j <= s@.len(),
    ensures
        w@ == s@.subrange(i as int, j as int),
{
    let mut w = String::new();
    let mut k = i;
    while k < j
        invariant
            i <= k <= j,
            j <= s@.len(),
            w@ == s@.subrange(i as int, k as int),
        decreases j - k,
    {
        push_char(&mut w, s[k]);
        proof {
            assert(s@.subrange(i as int, (k + 1) as int) =~= s@.subrange(i as int, k as int).push(
                s@[k as int],
            ));
        }
        k = k + 1;
    }
    w
}

/// Whether the character at `j` is a separator.
fn is_sep_at(s: &Vec<char>, j: usize) -> (r: bool)
    requires
        j < s@.len(),
    ensures
        r == sep_char(s@[j as int]),
{
    classify(s[j]) == CharClass::Separator
}

/// Whether the character at `j` can be part of a word.
fn is_word_at(s: &Vec<char>, j: usize) -> (r: bool)
    requires
        j < s@.len(),
    ensures
        r == word_char(s@[j as int]),
{
    classify(s[j]) == CharClass::WordComponent
}

/// Whether a term can begin at `j`.
fn can_start_term_at(s: &Vec<char>, j: usize) -> (r: bool)
    requires
        j <= s@.len(),
    ensures
        r == can_start_term(s@, j as int),
{
    if j < s.len() {
        let c = s[j];
        classify(c) == CharClass::WordComponent || c == '('
    } else {
        false
    }
}

/// Whether a rule can begin at `j`.
fn can_start_rule_at(s: &Vec<char>, j: usize) -> (r: bool)
    requires
        j <= s@.len(),
    ensures
        r == can_start_rule(s@, j as int),
{
    if j < s.len() {
        let c = s[j];
        classify(c) == CharClass::WordComponent || c == '(' || c == '='
    } else {
        false
    }
}

/// Advance past the separator run starting at `i`.
fn skip_separators(s: &Vec<char>, i: usize) -> (j: usize)
    requires
        i <= s@.len(),
    ensures
        j as int == skip_seps(s@, i as int),
        i <= j && j <= s@.len(),
{
    let mut j = i;
    while j < s.len() && is_sep_at(s, j)
        invariant
            i <= j <= s@.len(),
            skip_seps(s@, i as int) == skip_seps(s@, j as int),
        decreases s@.len() - j,
    {
        j = j + 1;
    }
    j
}

/// Advance past the word-character run starting at `i`.
fn scan_word(s: &Vec<char>, i: usize) -> (j: usize)
    requires
        i <= s@.len(),
    ensures
        j as int == word_end(s@, i as int),
        i <= j && j <= s@.len(),
{
    let mut j = i;
    while j < s.len() && is_word_at(s, j)
        invariant
            i <= j <= s@.len(),
            word_end(s@, i as int) == word_end(s@, j as int),
        decreases s@.len() - j,
    {
        j = j + 1;
    }
    j
}

/// Parse one term at position `i`: a word, or a parenthesized sequence.
fn p_term(s: &Vec<char>, i: usize) -> (r: Result<(Term, usize), SyntaxError>)
    requires
        i <= s@.len(),
    ensures
        (match r {
            Ok((t, j)) => sp_term(s@, i as int) == Ok::<(TermV, int), ErrV>((t@, j as int)) && i < j
                && j <= s@.len(),
            Err(e) => sp_term(s@, i as int) == Err::<(TermV, int), ErrV>(e@),
        }),
    decreases s@.len() - i, 0int,
{
    if i < s.len() && is_word_at(s, i) {
        let j = scan_word(s, i);
        proof {
            lemma_word_end_bounds(s@, (i + 1) as int);
        }
        let w = build_word(s, i, j);
        Ok((Term::Word(w), j))
    } else if i < s.len() && s[i] == '(' {
        match p_terms(s, i + 1) {
            Ok((ts, j)) => {
                if j < s.len() && s[j] == ')' {
                    Ok((Term::Quote(ts), j + 1))
                } else {
                    Err(SyntaxError { position: j, expected: Expected::CloseParen })
                }
            },
            Err(e) => Err(e),
        }
    } else {
        Err(SyntaxError { position: i, expected: Expected::WordOrOpenParen })
    }
}

/// Parse a term sequence at position `i`: separators, then terms each
/// followed by separators, until no term can start.
fn p_terms(s: &Vec<char>, i: usize) -> (r: Result<(Vec<Term>, usize), SyntaxError>)
    requires
        i <= s@.len(),
    ensures
        (match r {
            Ok((ts, j)) => sp_terms(s@, i as int) == Ok::<(Seq<TermV>, int), ErrV>(
                (terms_view(ts@), j as int),
            ) && i <= j && j <= s@.len(),
            Err(e) => sp_terms(s@, i as int) == Err::<(Seq<TermV>, int), ErrV>(e@),
        }),
    decreases s@.len() - i, 1int,
{
    let mut acc: Vec<Term> = Vec::new();
    let mut cur = skip_separators(s, i);
    proof {
        lemma_skip_seps_stop(s@, i as int);
        assert(sp_terms(s@, i as int) == sp_terms(s@, cur as int));
        if let Ok((ts2, m)) = sp_terms(s@, cur as int) {
            assert(terms_view(acc@) + ts2 =~= ts2);
        }
    }
    while can_start_term_at(s, cur)
        invariant
            i <= cur <= s@.len(),
            skip_seps(s@, cur as int) == cur as int,
            (match sp_terms(s@, cur as int) {
                Ok((ts2, m)) => sp_terms(s@, i as int) == Ok::<(Seq<TermV>, int), ErrV>(
                    (terms_view(acc@) + ts2, m),
                ),
                Err(e) => sp_terms(s@, i as int) == Err::<(Seq<TermV>, int), ErrV>(e),
            }),
        decreases s@.len() - cur,
    {
        match p_term(s, cur) {
            Ok((t, k)) => {
                let ghost tv = t@;
                let ghost prev = acc@;
                acc.push(t);
                let k2 = skip_separators(s, k);
                proof {
                    lemma_skip_seps_stop(s@, k as int);
                    assert(sp_terms(s@, k as int) == sp_terms(s@, k2 as int));
                    lemma_terms_view_index(prev);
                    lemma_terms_view_index(acc@);
                    assert(terms_view(acc@) =~= terms_view(prev) + seq![tv]);
                    if let Ok((ts3, m)) = sp_terms(s@, k2 as int) {
                        assert(terms_view(prev) + (seq![tv] + ts3) =~= terms_view(acc@) + ts3);
                    }
                }
                cur = k2;
            },
            Err(e) => {
                return Err(e);
            },
        }
    }
    proof {
        assert(sp_terms(s@, cur as int) == Ok::<(Seq<TermV>, int), ErrV>(
            (Seq::<TermV>::empty(), cur as int),
        ));
        assert(terms_view(acc@) + Seq::<TermV>::empty() =~= terms_view(acc@));
    }
    Ok((acc, cur))
}

/// Parse one rule at position `i`: pattern, `=`, replacement, `;`.
fn p_rule(s: &Vec<char>, i: usize) -> (r: Result<(Rule, usize), SyntaxError>)
    requires
        i <= s@.len(),
    ensures
        (match r {
            Ok((rl, j)) => sp_rule(s@, i as int) == Ok::<(RuleV, int), ErrV>((rl@, j as int)) && i
                < j && j <= s@.len(),
            Err(e) => sp_rule(s@, i as int) == Err::<(RuleV, int), ErrV>(e@),
        }),
    decreases s@.len() - i, 2int,
{
    match p_terms(s, i) {
        Ok((pat, j)) => {
            if j < s.len() && s[j] == '=' {
                match p_terms(s, j + 1) {
                    Ok((rep, k)) => {
                        if k < s.len() && s[k] == ';' {
                            Ok((Rule { pattern: pat, replacement: rep }, k + 1))
                        } else {
                            Err(SyntaxError { position: k, expected: Expected::Semicolon })
                        }
                    },
                    Err(e) => Err(e),
                }
            } else {
                Err(SyntaxError { position: j, expected: Expected::EqualSign })
            }
        },
        Err(e) => Err(e),
    }
}

/// Parse a rule sequence at position `i`: separators, then rules each
/// followed by separators, until no rule can start.
fn p_rules(s: &Vec<char>, i: usize) -> (r: Result<(Vec<Rule>, usize), SyntaxError>)
    requires
        i <= s@.len(),
    ensures
        (match r {
            Ok((rs, j)) => sp_rules(s@, i as int) == Ok::<(Seq<RuleV>, int), ErrV>(
                (rules_view(rs@), j as int),
            ) && i <= j && j <= s@.len(),
            Err(e) => sp_rules(s@, i as int) == Err::<(Seq<RuleV>, int), ErrV>(e@),
        }),
    decreases s@.len() - i, 3int,
{
    let mut acc: Vec<Rule> = Vec::new();
    let mut cur = skip_separators(s, i);
    proof {
        lemma_skip_seps_stop(s@, i as int);
        assert(sp_rules(s@, i as int) == sp_rules(s@, cur as int));
        if let Ok((rs2, m)) = sp_rules(s@, cur as int) {
            assert(rules_view(acc@) + rs2 =~= rs2);
        }
    }
    while can_start_rule_at(s, cur)
        invariant
            i <= cur <= s@.len(),
            skip_seps(s@, cur as int) == cur as int,
            (match sp_rules(s@, cur as int) {
                Ok((rs2, m)) => sp_rules(s@, i as int) == Ok::<(Seq<RuleV>, int), ErrV>(
                    (rules_view(acc@) + rs2, m),
                ),
                Err(e) => sp_rules(s@, i as int) == Err::<(Seq<RuleV>, int), ErrV>(e),
            }),
        decreases s@.len() - cur,
    {
        match p_rule(s, cur) {
            Ok((rl, k)) => {
                let ghost rv = rl@;
                let ghost prev = acc@;
                acc.push(rl);
                let k2 = skip_separators(s, k);
                proof {
                    lemma_skip_seps_stop(s@, k as int);
                    assert(sp_rules(s@, k as int) == sp_rules(s@, k2 as int));
                    assert(rules_view(acc@) =~= rules_view(prev) + seq![rv]);
                    if let Ok((rs3, m)) = sp_rules(s@, k2 as int) {
                        assert(rules_view(prev) + (seq![rv] + rs3) =~= rules_view(acc@) + rs3);
                    }
                }
                cur = k2;
            },
            Err(e) => {
                return Err(e);
            },
        }
    }
    proof {
        assert(sp_rules(s@, cur as int) == Ok::<(Seq<RuleV>, int), ErrV>(
            (Seq::<RuleV>::empty(), cur as int),
        ));
        assert(rules_view(acc@) + Seq::<RuleV>::empty() =~= rules_view(acc@));
    }
    Ok((acc, cur))
}

/// Parse the whole input as one term. The entire input must be consumed;
/// trailing characters, separators included, fail with a positional error.
pub fn parse_term(input: &str) -> (r: Result<Term, SyntaxError>)
    ensures
        (match r {
            Ok(t) => sp_parse_term(input@) == Ok::<TermV, ErrV>(t@) && wf_term(t@),
            Err(e) => sp_parse_term(input@) == Err::<TermV, ErrV>(e@),
        }),
{
    let chars = str_to_chars(input);
    proof {
        lemma_sp_term_wf(chars@, 0);
    }
    match p_term(&chars, 0) {
        Ok((t, j)) => {
            if j == chars.len() {
                Ok(t)
            } else {
                Err(SyntaxError { position: j, expected: Expected::EndOfInput })
            }
        },
        Err(e) => Err(e),
    }
}

/// Parse the whole input as a term sequence. An empty or all-separator
/// input yields the empty sequence.
pub fn parse_terms(input: &str) -> (r: Result<Vec<Term>, SyntaxError>)
    ensures
        (match r {
            Ok(ts) => sp_parse_terms(input@) == Ok::<Seq<TermV>, ErrV>(terms_view(ts@))
                && wf_terms(terms_view(ts@)),
            Err(e) => sp_parse_terms(input@) == Err::<Seq<TermV>, ErrV>(e@),
        }),
        (forall|q: int| 0 <= q < input@.len() ==> sep_char(#[trigger] input@[q])) ==> (r matches Ok(
            ts,
        ) && ts@.len() == 0),
{
    let chars = str_to_chars(input);
    proof {
        lemma_sp_terms_wf(chars@, 0);
        if forall|q: int| 0 <= q < chars@.len() ==> sep_char(#[trigger] chars@[q]) {
            lemma_all_separators(chars@);
        }
        lemma_terms_view_index(Seq::<Term>::empty());
    }
    match p_terms(&chars, 0) {
        Ok((ts, j)) => {
            if j == chars.len() {
                proof {
                    lemma_terms_view_index(ts@);
                }
                Ok(ts)
            } else {
                Err(SyntaxError { position: j, expected: Expected::EndOfInput })
            }
        },
        Err(e) => Err(e),
    }
}

/// Parse the whole input as one rule. The input must end right after the
/// terminating `;`.
pub fn parse_rule(input: &str) -> (r: Result<Rule, SyntaxError>)
    ensures
        (match r {
            Ok(rl) => sp_parse_rule(input@) == Ok::<RuleV, ErrV>(rl@) && wf_rule(rl@),
            Err(e) => sp_parse_rule(input@) == Err::<RuleV, ErrV>(e@),
        }),
{
    let chars = str_to_chars(input);
    proof {
        lemma_sp_rule_wf(chars@, 0);
    }
    match p_rule(&chars, 0) {
        Ok((rl, j)) => {
            if j == chars.len() {
                Ok(rl)
            } else {
                Err(SyntaxError { position: j, expected: Expected::EndOfInput })
            }
        },
        Err(e) => Err(e),
    }
}

/// Parse the whole input as a rule sequence. An empty or all-separator
/// input yields the empty sequence.
pub fn parse_rules(input: &str) -> (r: Result<Vec<Rule>, SyntaxError>)
    ensures
        (match r {
            Ok(rs) => sp_parse_rules(input@) == Ok::<Seq<RuleV>, ErrV>(rules_view(rs@))
                && wf_rules(rules_view(rs@)),
            Err(e) => sp_parse_rules(input@) == Err::<Seq<RuleV>, ErrV>(e@),
        }),
        (forall|q: int| 0 <= q < input@.len() ==> sep_char(#[trigger] input@[q])) ==> (r matches Ok(
            rs,
        ) && rs@.len() == 0),
{
    let chars = str_to_chars(input);
    proof {
        lemma_sp_rules_wf(chars@, 0);
        if forall|q: int| 0 <= q < chars@.len() ==> sep_char(#[trigger] chars@[q]) {
            lemma_all_separators(chars@);
        }
    }
    match p_rules(&chars, 0) {
        Ok((rs, j)) => {
            if j == chars.len() {
                proof {
                    assert(rules_view(rs@).len() == rs@.len());
                }
                Ok(rs)
            } else {
                Err(SyntaxError { position: j, expected: Expected::EndOfInput })
            }
        },
        Err(e) => Err(e),
    }
}

} // verus!
