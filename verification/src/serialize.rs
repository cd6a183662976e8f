//! The canonical text of a term: words joined by single spaces, quotes
//! wrapped in parentheses. Serialization inverts parsing: parsing the
//! canonical text of a well-formed term yields that term back, and the
//! serializer's contract says so.

use vstd::prelude::*;
use vstd::string::StringExecFns;

use crate::ast::{
    lemma_terms_view_index, lemma_wf_terms_index, rules_view, term_view, terms_view, wf_rule,
    wf_rules, wf_term, wf_terms, ErrV, Rule, RuleV, Term, TermV,
};
use crate::classify::{classify, observe_space_class, sep_char, word_char, CharClass};
use crate::grammar::{
    can_start_rule, can_start_term, skip_seps, sp_parse_rule, sp_parse_rules, sp_parse_term,
    sp_parse_terms, sp_rule, sp_rules, sp_term, sp_terms, word_end,
};
use crate::parser::{push_char, str_to_chars};

verus! {

broadcast use vstd::std_specs::vec::group_vec_axioms;

/// The canonical text of a term: a word is its own text; a quote wraps the
/// text of its children in parentheses.
pub open spec fn ser_term(t: TermV) -> Seq<char>
    decreases t,
{
    match t {
        TermV::Word(w) => w,
        TermV::Quote(ts) => seq!['('] + ser_terms(ts) + seq![')'],
    }
}

/// The canonical text of a term sequence: the terms' texts joined by a
/// single space.
pub open spec fn ser_terms(ts: Seq<TermV>) -> Seq<char>
    decreases ts,
{
    if ts.len() == 0 {
        Seq::empty()
    } else if ts.len() == 1 {
        ser_term(ts[0])
    } else {
        ser_term(ts[0]) + seq![' '] + ser_terms(ts.subrange(1, ts.len() as int))
    }
}

/// The canonical text of a well-formed term is never empty.
proof fn lemma_ser_term_len(t: TermV)
    requires
        wf_term(t),
    ensures
        ser_term(t).len() >= 1,
{
    match t {
        TermV::Word(w) => {
        },
        TermV::Quote(ts) => {
        },
    }
}

/// Appending one term to a sequence appends its text, preceded by a space
/// when the sequence was not empty.
proof fn lemma_ser_terms_snoc(ts: Seq<TermV>, t: TermV)
    ensures
        ser_terms(ts.push(t)) == (if ts.len() == 0 {
            ser_term(t)
        } else {
            ser_terms(ts) + seq![' '] + ser_term(t)
        }),
    decreases ts.len(),
{
    let p = ts.push(t);
    if ts.len() == 0 {
        assert(p[0] == t);
    } else {
        let rest = ts.subrange(1, ts.len() as int);
        assert(p.subrange(1, p.len() as int) =~= rest.push(t));
        lemma_ser_terms_snoc(rest, t);
        assert(p[0] == ts[0]);
        if ts.len() == 1 {
            assert(ser_terms(p) == ser_term(ts[0]) + seq![' '] + ser_term(t));
        } else {
            assert(ser_term(ts[0]) + seq![' '] + (ser_terms(rest) + seq![' '] + ser_term(t)) =~= (
            ser_term(ts[0]) + seq![' '] + ser_terms(rest)) + seq![' '] + ser_term(t));
        }
    }
}

/// A run of `n` word characters bounded by a non-word character (or the end
/// of input) is scanned in full.
proof fn lemma_word_run(s: Seq<char>, i: int, n: int)
    requires
        0 <= i,
        0 <= n,
        i + n <= s.len(),
        forall|m: int| i <= m < i + n ==> word_char(#[trigger] s[m]),
        i + n == s.len() || !word_char(s[i + n]),
    ensures
        word_end(s, i) == i + n,
    decreases n,
{
    if n > 0 {
        lemma_word_run(s, i + 1, n - 1);
    }
}

/// Parsing one term at the position where its canonical text begins yields
/// that term and stops right after the text, provided a word cannot run on
/// into what follows.
proof fn lemma_rt_term(s: Seq<char>, i: int, t: TermV)
    requires
        sep_char(' '),
        wf_term(t),
        0 <= i,
        i + ser_term(t).len() <= s.len(),
        s.subrange(i, i + ser_term(t).len() as int) == ser_term(t),
        (t matches TermV::Word(w) ==> (i + ser_term(t).len() == s.len() || !word_char(
            s[i + ser_term(t).len()],
        ))),
    ensures
        sp_term(s, i) == Ok::<(TermV, int), ErrV>((t, i + ser_term(t).len() as int)),
    decreases t,
{
    let l = ser_term(t).len() as int;
    match t {
        TermV::Word(w) => {
            assert forall|m: int| i <= m < i + l implies word_char(#[trigger] s[m]) by {
                assert(s[m] == s.subrange(i, i + l)[m - i]);
            }
            assert(word_char(s[i])) by {
                assert(w.len() >= 1);
            }
            lemma_word_run(s, i, l);
            assert(s.subrange(i, word_end(s, i)) == w);
        },
        TermV::Quote(ts) => {
            let inner = ser_terms(ts);
            assert(l == inner.len() + 2);
            assert(s[i] == '(') by {
                assert(s[i] == s.subrange(i, i + l)[0]);
                assert(ser_term(t)[0] == '(');
            }
            assert(!word_char(s[i]));
            let e = i + 1 + inner.len();
            assert(s.subrange(i + 1, e as int) =~= inner) by {
                assert forall|m: int| 0 <= m < inner.len() implies s.subrange(i + 1, e as int)[m]
                    == inner[m] by {
                    assert(s[i + 1 + m] == s.subrange(i, i + l)[1 + m]);
                    assert(ser_term(t)[1 + m] == inner[m]);
                }
            }
            assert(s[e] == ')') by {
                assert(s[e] == s.subrange(i, i + l)[l - 1]);
                assert(ser_term(t)[l - 1] == ')');
            }
            assert(!word_char(s[e]) && s[e] != '(' && !sep_char(s[e]));
            lemma_rt_terms(s, i + 1, ts);
            assert(sp_term(s, i) == Ok::<(TermV, int), ErrV>((t, e + 1)));
        },
    }
}

/// Parsing a term sequence at the position where its canonical text begins
/// yields that sequence and stops right after the text, provided what
/// follows is the end of input or a character that neither extends a word,
/// nor starts a term, nor is a separator.
proof fn lemma_rt_terms(s: Seq<char>, i: int, ts: Seq<TermV>)
    requires
        sep_char(' '),
        wf_terms(ts),
        0 <= i,
        i + ser_terms(ts).len() <= s.len(),
        s.subrange(i, i + ser_terms(ts).len() as int) == ser_terms(ts),
        i + ser_terms(ts).len() == s.len() || (!word_char(s[i + ser_terms(ts).len()])
            && s[i + ser_terms(ts).len()] != '(' && !sep_char(s[i + ser_terms(ts).len()])),
    ensures
        sp_terms(s, i) == Ok::<(Seq<TermV>, int), ErrV>((ts, i + ser_terms(ts).len() as int)),
    decreases ts,
{
    let e = i + ser_terms(ts).len() as int;
    lemma_wf_terms_index(ts);
    if ts.len() == 0 {
        assert(skip_seps(s, i) == i);
        assert(!can_start_term(s, i));
        assert(ts =~= Seq::<TermV>::empty());
        assert(sp_terms(s, i) == Ok::<(Seq<TermV>, int), ErrV>((Seq::<TermV>::empty(), i)));
    } else {
        let t0 = ts[0];
        assert(wf_term(t0));
        lemma_ser_term_len(t0);
        let l0 = ser_term(t0).len() as int;
        let rest = ts.subrange(1, ts.len() as int);
        // the text of ts starts with the text of its first term
        assert(s.subrange(i, i + l0) =~= ser_term(t0)) by {
            assert forall|m: int| 0 <= m < l0 implies s.subrange(i, i + l0)[m] == ser_term(t0)[m] by {
                assert(s[i + m] == s.subrange(i, e)[m]);
                assert(ser_terms(ts)[m] == ser_term(t0)[m]);
            }
        }
        // its first character is a word character or '(' , so no separator
        match t0 {
            TermV::Word(w) => {
                assert(ser_term(t0)[0] == w[0]);
                assert(word_char(s[i]));
                assert(!sep_char(s[i]));
            },
            TermV::Quote(q) => {
                assert(ser_term(t0)[0] == '(');
                assert(s[i] == '(');
                assert(!sep_char(s[i]));
            },
        }
        assert(skip_seps(s, i) == i);
        assert(can_start_term(s, i));
        if ts.len() == 1 {
            assert(e == i + l0);
            lemma_rt_term(s, i, t0);
            assert(sp_term(s, i) == Ok::<(TermV, int), ErrV>((t0, e)));
            assert(skip_seps(s, e) == e);
            assert(!can_start_term(s, e));
            assert(sp_terms(s, e) == Ok::<(Seq<TermV>, int), ErrV>((Seq::<TermV>::empty(), e)));
            assert(ts =~= seq![t0] + Seq::<TermV>::empty());
            assert(sp_terms(s, i) == Ok::<(Seq<TermV>, int), ErrV>((ts, e)));
        } else {
            let k = i + l0;
            assert(s[k] == ' ') by {
                assert(s[k] == s.subrange(i, e)[l0]);
                assert(ser_terms(ts)[l0] == ' ');
            }
            lemma_rt_term(s, i, t0);
            assert(sp_term(s, i) == Ok::<(TermV, int), ErrV>((t0, k)));
            // the remaining terms' text follows after the space
            assert(rest.len() >= 1);
            assert(wf_terms(rest)) by {
                lemma_wf_terms_index(rest);
                assert forall|q: int| 0 <= q < rest.len() implies #[trigger] wf_term(rest[q]) by {
                    assert(rest[q] == ts[q + 1]);
                }
            }
            assert(e == k + 1 + ser_terms(rest).len());
            assert(s.subrange(k + 1, e) =~= ser_terms(rest)) by {
                assert forall|m: int| 0 <= m < ser_terms(rest).len() implies s.subrange(k + 1, e)[m]
                    == ser_terms(rest)[m] by {
                    assert(s[k + 1 + m] == s.subrange(i, e)[l0 + 1 + m]);
                    assert(ser_terms(ts)[l0 + 1 + m] == ser_terms(rest)[m]);
                }
            }
            lemma_rt_terms(s, k + 1, rest);
            assert(sp_terms(s, k + 1) == Ok::<(Seq<TermV>, int), ErrV>((rest, e)));
            // one space is skipped between the first term and the rest
            let r0 = rest[0];
            assert(wf_term(r0));
            lemma_ser_term_len(r0);
            assert(s.subrange(k + 1, e)[0] == ser_terms(rest)[0]);
            match r0 {
                TermV::Word(w) => {
                    assert(ser_terms(rest)[0] == ser_term(r0)[0]);
                    assert(ser_term(r0)[0] == w[0]);
                    assert(word_char(s[k + 1]));
                    assert(!sep_char(s[k + 1]));
                },
                TermV::Quote(q) => {
                    assert(ser_terms(rest)[0] == ser_term(r0)[0]);
                    assert(ser_term(r0)[0] == '(');
                    assert(s[k + 1] == '(');
                    assert(!sep_char(s[k + 1]));
                },
            }
            assert(skip_seps(s, k + 1) == k + 1);
            assert(skip_seps(s, k) == k + 1);
            assert(sp_terms(s, k) == sp_terms(s, k + 1));
            assert(ts =~= seq![t0] + rest);
            assert(sp_terms(s, i) == Ok::<(Seq<TermV>, int), ErrV>((ts, e)));
        }
    }
}

/// The canonical text of a rule: pattern, `=`, replacement, `;`. The
/// reserved characters delimit the sequences, so no separator is needed.
pub open spec fn ser_rule(r: RuleV) -> Seq<char> {
    ser_terms(r.pattern) + seq!['='] + ser_terms(r.replacement) + seq![';']
}

/// The canonical text of a rule sequence: the rules' texts joined by a
/// single space.
pub open spec fn ser_rules(rs: Seq<RuleV>) -> Seq<char>
    decreases rs,
{
    if rs.len() == 0 {
        Seq::empty()
    } else if rs.len() == 1 {
        ser_rule(rs[0])
    } else {
        ser_rule(rs[0]) + seq![' '] + ser_rules(rs.subrange(1, rs.len() as int))
    }
}

/// The first character of a rule's canonical text starts a rule and is no
/// separator: a word character, `(`, or `=`.
proof fn lemma_ser_rule_first(r: RuleV)
    requires
        wf_rule(r),
    ensures
        ser_rule(r).len() >= 2,
        ser_rule(r)[0] == '=' || word_char(ser_rule(r)[0]) || ser_rule(r)[0] == '(',
        !sep_char(ser_rule(r)[0]),
{
    let pat = r.pattern;
    if pat.len() == 0 {
        assert(ser_rule(r)[0] == '=');
    } else {
        lemma_wf_terms_index(pat);
        assert(wf_term(pat[0]));
        lemma_ser_term_len(pat[0]);
        assert(ser_terms(pat).len() >= 1);
        assert(ser_terms(pat)[0] == ser_term(pat[0])[0]);
        assert(ser_rule(r)[0] == ser_terms(pat)[0]);
        match pat[0] {
            TermV::Word(w) => {
                assert(w.len() >= 1);
                assert(word_char(w[0]));
                assert(ser_term(pat[0])[0] == w[0]);
                assert(word_char(ser_rule(r)[0]));
            },
            TermV::Quote(q) => {
                assert(ser_term(pat[0])[0] == '(');
            },
        }
    }
}

/// Parsing one rule at the position where its canonical text begins yields
/// that rule and stops right after the terminating `;`.
proof fn lemma_rt_rule(s: Seq<char>, i: int, r: RuleV)
    requires
        sep_char(' '),
        wf_rule(r),
        0 <= i,
        i + ser_rule(r).len() <= s.len(),
        s.subrange(i, i + ser_rule(r).len() as int) == ser_rule(r),
    ensures
        sp_rule(s, i) == Ok::<(RuleV, int), ErrV>((r, i + ser_rule(r).len() as int)),
{
    let l = ser_rule(r).len() as int;
    let lp = ser_terms(r.pattern).len() as int;
    let lr = ser_terms(r.replacement).len() as int;
    assert(l == lp + 1 + lr + 1);
    assert forall|m: int| 0 <= m < l implies s[i + m] == ser_rule(r)[m] by {
        assert(s[i + m] == s.subrange(i, i + l)[m]);
    }
    assert(s.subrange(i, i + lp) =~= ser_terms(r.pattern)) by {
        assert forall|m: int| 0 <= m < lp implies s.subrange(i, i + lp)[m] == ser_terms(
            r.pattern,
        )[m] by {
            assert(ser_rule(r)[m] == ser_terms(r.pattern)[m]);
        }
    }
    assert(s[i + lp] == '=') by {
        assert(ser_rule(r)[lp] == '=');
    }
    assert(s.subrange(i + lp + 1, i + lp + 1 + lr) =~= ser_terms(r.replacement)) by {
        assert forall|m: int| 0 <= m < lr implies s.subrange(i + lp + 1, i + lp + 1 + lr)[m]
            == ser_terms(r.replacement)[m] by {
            assert(ser_rule(r)[lp + 1 + m] == ser_terms(r.replacement)[m]);
        }
    }
    assert(s[i + l - 1] == ';') by {
        assert(ser_rule(r)[l - 1] == ';');
    }
    assert(!word_char(s[i + lp]) && s[i + lp] != '(' && !sep_char(s[i + lp]));
    lemma_rt_terms(s, i, r.pattern);
    assert(sp_terms(s, i) == Ok::<(Seq<TermV>, int), ErrV>((r.pattern, i + lp)));
    assert(!word_char(s[i + l - 1]) && s[i + l - 1] != '(' && !sep_char(s[i + l - 1]));
    lemma_rt_terms(s, i + lp + 1, r.replacement);
    assert(sp_terms(s, i + lp + 1) == Ok::<(Seq<TermV>, int), ErrV>(
        (r.replacement, i + l - 1),
    ));
    assert(r =~= (RuleV { pattern: r.pattern, replacement: r.replacement }));
}

/// Parsing a rule sequence at the position where its canonical text begins
/// yields that sequence and stops right after the text, provided what
/// follows is the end of input or a character that neither starts a rule
/// nor is a separator.
proof fn lemma_rt_rules(s: Seq<char>, i: int, rs: Seq<RuleV>)
    requires
        sep_char(' '),
        wf_rules(rs),
        0 <= i,
        i + ser_rules(rs).len() <= s.len(),
        s.subrange(i, i + ser_rules(rs).len() as int) == ser_rules(rs),
        i + ser_rules(rs).len() == s.len() || (!word_char(s[i + ser_rules(rs).len()])
            && s[i + ser_rules(rs).len()] != '(' && s[i + ser_rules(rs).len()] != '='
            && !sep_char(s[i + ser_rules(rs).len()])),
    ensures
        sp_rules(s, i) == Ok::<(Seq<RuleV>, int), ErrV>((rs, i + ser_rules(rs).len() as int)),
    decreases rs,
{
    let e = i + ser_rules(rs).len() as int;
    if rs.len() == 0 {
        assert(skip_seps(s, i) == i);
        assert(!can_start_rule(s, i));
        assert(rs =~= Seq::<RuleV>::empty());
        assert(sp_rules(s, i) == Ok::<(Seq<RuleV>, int), ErrV>((Seq::<RuleV>::empty(), i)));
    } else {
        let r0 = rs[0];
        assert(wf_rule(r0));
        lemma_ser_rule_first(r0);
        let l0 = ser_rule(r0).len() as int;
        let rest = rs.subrange(1, rs.len() as int);
        assert(s.subrange(i, i + l0) =~= ser_rule(r0)) by {
            assert forall|m: int| 0 <= m < l0 implies s.subrange(i, i + l0)[m] == ser_rule(
                r0,
            )[m] by {
                assert(s[i + m] == s.subrange(i, e)[m]);
                assert(ser_rules(rs)[m] == ser_rule(r0)[m]);
            }
        }
        assert(s[i] == ser_rule(r0)[0]);
        assert(skip_seps(s, i) == i);
        assert(can_start_rule(s, i));
        lemma_rt_rule(s, i, r0);
        let k = i + l0;
        assert(sp_rule(s, i) == Ok::<(RuleV, int), ErrV>((r0, k)));
        if rs.len() == 1 {
            assert(e == k);
            assert(skip_seps(s, e) == e);
            assert(!can_start_rule(s, e));
            assert(sp_rules(s, e) == Ok::<(Seq<RuleV>, int), ErrV>((Seq::<RuleV>::empty(), e)));
            assert(rs =~= seq![r0] + Seq::<RuleV>::empty());
            assert(sp_rules(s, i) == Ok::<(Seq<RuleV>, int), ErrV>((rs, e)));
        } else {
            assert(s[k] == ' ') by {
                assert(s[k] == s.subrange(i, e)[l0]);
                assert(ser_rules(rs)[l0] == ' ');
            }
            assert(rest.len() >= 1);
            assert(wf_rules(rest)) by {
                assert forall|q: int| 0 <= q < rest.len() implies #[trigger] wf_rule(rest[q]) by {
                    assert(rest[q] == rs[q + 1]);
                }
            }
            assert(e == k + 1 + ser_rules(rest).len());
            assert(s.subrange(k + 1, e) =~= ser_rules(rest)) by {
                assert forall|m: int| 0 <= m < ser_rules(rest).len() implies s.subrange(k + 1, e)[m]
                    == ser_rules(rest)[m] by {
                    assert(s[k + 1 + m] == s.subrange(i, e)[l0 + 1 + m]);
                    assert(ser_rules(rs)[l0 + 1 + m] == ser_rules(rest)[m]);
                }
            }
            lemma_rt_rules(s, k + 1, rest);
            assert(sp_rules(s, k + 1) == Ok::<(Seq<RuleV>, int), ErrV>((rest, e)));
            assert(wf_rule(rest[0]));
            lemma_ser_rule_first(rest[0]);
            assert(s[k + 1] == ser_rules(rest)[0]) by {
                assert(s.subrange(k + 1, e)[0] == ser_rules(rest)[0]);
            }
            assert(ser_rules(rest)[0] == ser_rule(rest[0])[0]);
            assert(!sep_char(s[k + 1]));
            assert(skip_seps(s, k + 1) == k + 1);
            assert(skip_seps(s, k) == k + 1);
            assert(sp_rules(s, k) == sp_rules(s, k + 1));
            assert(rs =~= seq![r0] + rest);
            assert(sp_rules(s, i) == Ok::<(Seq<RuleV>, int), ErrV>((rs, e)));
        }
    }
}

/// Round trip for one term: parsing the canonical text of a well-formed
/// term yields exactly that term.
pub proof fn lemma_rt_parse_term(t: TermV)
    requires
        sep_char(' '),
        wf_term(t),
    ensures
        sp_parse_term(ser_term(t)) == Ok::<TermV, ErrV>(t),
{
    let s = ser_term(t);
    assert(s.subrange(0, s.len() as int) =~= s);
    lemma_rt_term(s, 0, t);
}

/// Round trip for a term sequence: parsing the canonical text of a
/// well-formed sequence yields exactly that sequence.
pub proof fn lemma_rt_parse_terms(ts: Seq<TermV>)
    requires
        sep_char(' '),
        wf_terms(ts),
    ensures
        sp_parse_terms(ser_terms(ts)) == Ok::<Seq<TermV>, ErrV>(ts),
{
    let s = ser_terms(ts);
    assert(s.subrange(0, s.len() as int) =~= s);
    lemma_rt_terms(s, 0, ts);
}

/// Round trip for one rule: parsing the canonical text of a well-formed
/// rule yields exactly that rule.
pub proof fn lemma_rt_parse_rule(r: RuleV)
    requires
        sep_char(' '),
        wf_rule(r),
    ensures
        sp_parse_rule(ser_rule(r)) == Ok::<RuleV, ErrV>(r),
{
    let s = ser_rule(r);
    assert(s.subrange(0, s.len() as int) =~= s);
    lemma_rt_rule(s, 0, r);
}

/// Round trip for a rule sequence: parsing the canonical text of a
/// well-formed sequence yields exactly that sequence.
pub proof fn lemma_rt_parse_rules(rs: Seq<RuleV>)
    requires
        sep_char(' '),
        wf_rules(rs),
    ensures
        sp_parse_rules(ser_rules(rs)) == Ok::<Seq<RuleV>, ErrV>(rs),
{
    let s = ser_rules(rs);
    assert(s.subrange(0, s.len() as int) =~= s);
    lemma_rt_rules(s, 0, rs);
}

/// Appending one rule to a sequence appends its text, preceded by a space
/// when the sequence was not empty.
proof fn lemma_ser_rules_snoc(rs: Seq<RuleV>, r: RuleV)
    ensures
        ser_rules(rs.push(r)) == (if rs.len() == 0 {
            ser_rule(r)
        } else {
            ser_rules(rs) + seq![' '] + ser_rule(r)
        }),
    decreases rs.len(),
{
    let p = rs.push(r);
    if rs.len() == 0 {
        assert(p[0] == r);
    } else {
        let rest = rs.subrange(1, rs.len() as int);
        assert(p.subrange(1, p.len() as int) =~= rest.push(r));
        lemma_ser_rules_snoc(rest, r);
        assert(p[0] == rs[0]);
        if rs.len() == 1 {
            assert(ser_rules(p) == ser_rule(rs[0]) + seq![' '] + ser_rule(r));
        } else {
            assert(ser_rule(rs[0]) + seq![' '] + (ser_rules(rest) + seq![' '] + ser_rule(r)) =~= (
            ser_rule(rs[0]) + seq![' '] + ser_rules(rest)) + seq![' '] + ser_rule(r));
        }
    }
}

/// Whether every word in the term is a non-empty run of word characters,
/// checked against the Unicode database.
pub fn check_term(t: &Term) -> (r: bool)
    ensures
        r == wf_term(term_view(*t)),
    decreases *t,
{
    match t {
        Term::Word(w) => {
            let chars = str_to_chars(w.as_str());
            if chars.len() == 0 {
                return false;
            }
            let mut i: usize = 0;
            while i < chars.len()
                invariant
                    i <= chars@.len(),
                    chars@ == w@,
                    term_view(*t) == TermV::Word(w@),
                    forall|q: int| 0 <= q < i ==> word_char(#[trigger] chars@[q]),
                decreases chars@.len() - i,
            {
                if classify(chars[i]) != CharClass::WordComponent {
                    proof {
                        assert(!word_char(w@[i as int]));
                        assert(term_view(*t) == TermV::Word(w@));
                        assert(!wf_term(TermV::Word(w@))) by {
                            if wf_term(TermV::Word(w@)) {
                                assert(word_char(w@[i as int]));
                            }
                        }
                    }
                    return false;
                }
                i = i + 1;
            }
            true
        },
        Term::Quote(ts) => check_terms(ts),
    }
}

/// Whether every term in the sequence is well-formed.
pub fn check_terms(ts: &Vec<Term>) -> (r: bool)
    ensures
        r == wf_terms(terms_view(ts@)),
    decreases ts@,
{
    proof {
        lemma_terms_view_index(ts@);
        lemma_wf_terms_index(terms_view(ts@));
    }
    let mut i: usize = 0;
    while i < ts.len()
        invariant
            i <= ts@.len(),
            terms_view(ts@).len() == ts@.len(),
            forall|q: int| 0 <= q < ts@.len() ==> terms_view(ts@)[q] == term_view(ts@[q]),
            wf_terms(terms_view(ts@)) <==> (forall|q: int|
                0 <= q < ts@.len() ==> #[trigger] wf_term(terms_view(ts@)[q])),
            forall|q: int| 0 <= q < i ==> #[trigger] wf_term(terms_view(ts@)[q]),
        decreases ts@.len() - i,
    {
        if !check_term(&ts[i]) {
            proof {
                assert(!wf_term(terms_view(ts@)[i as int]));
            }
            return false;
        }
        i = i + 1;
    }
    true
}

/// The canonical text of a well-formed term. Parsing it yields the term
/// back: serialization inverts parsing.
pub fn serialize_term(t: &Term) -> (out: String)
    requires
        wf_term(term_view(*t)),
    ensures
        out@ == ser_term(term_view(*t)),
        sp_parse_term(out@) == Ok::<TermV, ErrV>(term_view(*t)),
    decreases *t,
{
    let out: String;
    match t {
        Term::Word(w) => {
            out = w.clone();
        },
        Term::Quote(ts) => {
            let mut acc = String::new();
            push_char(&mut acc, '(');
            let inner = serialize_terms(ts);
            acc.append(inner.as_str());
            push_char(&mut acc, ')');
            proof {
                assert(acc@ =~= seq!['('] + ser_terms(terms_view(ts@)) + seq![')']);
            }
            out = acc;
        },
    }
    observe_space_class();
    proof {
        lemma_rt_parse_term(term_view(*t));
    }
    out
}

/// The canonical text of a well-formed term sequence: the terms joined by
/// single spaces. Parsing it yields the sequence back.
pub fn serialize_terms(ts: &Vec<Term>) -> (out: String)
    requires
        wf_terms(terms_view(ts@)),
    ensures
        out@ == ser_terms(terms_view(ts@)),
        sp_parse_terms(out@) == Ok::<Seq<TermV>, ErrV>(terms_view(ts@)),
    decreases ts@,
{
    let ghost tv = terms_view(ts@);
    proof {
        lemma_terms_view_index(ts@);
        lemma_wf_terms_index(tv);
        assert(tv.subrange(0, 0) =~= Seq::<TermV>::empty());
    }
    let mut out = String::new();
    let mut idx: usize = 0;
    while idx < ts.len()
        invariant
            idx <= ts@.len(),
            tv == terms_view(ts@),
            tv.len() == ts@.len(),
            wf_terms(tv),
            forall|q: int| 0 <= q < ts@.len() ==> terms_view(ts@)[q] == term_view(ts@[q]),
            forall|q: int| 0 <= q < tv.len() ==> #[trigger] wf_term(tv[q]),
            out@ == ser_terms(tv.subrange(0, idx as int)),
        decreases ts@.len() - idx,
    {
        let ghost pref = tv.subrange(0, idx as int);
        if idx > 0 {
            push_char(&mut out, ' ');
            proof {
                assert(out@ =~= ser_terms(pref) + seq![' ']);
            }
        }
        let piece = serialize_term(&ts[idx]);
        out.append(piece.as_str());
        proof {
            lemma_ser_terms_snoc(pref, tv[idx as int]);
            assert(tv.subrange(0, (idx + 1) as int) =~= pref.push(tv[idx as int]));
            if idx > 0 {
                assert(out@ =~= (ser_terms(pref) + seq![' ']) + ser_term(tv[idx as int]));
            } else {
                assert(pref.len() == 0);
                assert(out@ =~= ser_term(tv[idx as int]));
            }
        }
        idx = idx + 1;
    }
    proof {
        assert(tv.subrange(0, tv.len() as int) =~= tv);
    }
    observe_space_class();
    proof {
        lemma_rt_parse_terms(tv);
    }
    out
}

/// Whether both sides of the rule are well-formed.
pub fn check_rule(r: &Rule) -> (b: bool)
    ensures
        b == wf_rule(r.deep_view()),
{
    check_terms(&r.pattern) && check_terms(&r.replacement)
}

/// The canonical text of a well-formed rule: pattern, `=`, replacement,
/// `;`. Parsing it yields the rule back.
pub fn serialize_rule(r: &Rule) -> (out: String)
    requires
        wf_rule(r.deep_view()),
    ensures
        out@ == ser_rule(r.deep_view()),
        sp_parse_rule(out@) == Ok::<RuleV, ErrV>(r.deep_view()),
{
    let mut acc = serialize_terms(&r.pattern);
    push_char(&mut acc, '=');
    let rep = serialize_terms(&r.replacement);
    acc.append(rep.as_str());
    push_char(&mut acc, ';');
    proof {
        assert(acc@ =~= ser_terms(terms_view(r.pattern@)) + seq!['='] + ser_terms(
            terms_view(r.replacement@),
        ) + seq![';']);
    }
    observe_space_class();
    proof {
        lemma_rt_parse_rule(r.deep_view());
    }
    acc
}

/// The canonical text of a well-formed rule sequence: the rules joined by
/// single spaces. Parsing it yields the sequence back.
pub fn serialize_rules(rs: &Vec<Rule>) -> (out: String)
    requires
        wf_rules(rules_view(rs@)),
    ensures
        out@ == ser_rules(rules_view(rs@)),
        sp_parse_rules(out@) == Ok::<Seq<RuleV>, ErrV>(rules_view(rs@)),
{
    let ghost rv = rules_view(rs@);
    let mut out = String::new();
    let mut idx: usize = 0;
    proof {
        assert(rv.subrange(0, 0) =~= Seq::<RuleV>::empty());
    }
    while idx < rs.len()
        invariant
            idx <= rs@.len(),
            rv == rules_view(rs@),
            rv.len() == rs@.len(),
            wf_rules(rv),
            out@ == ser_rules(rv.subrange(0, idx as int)),
        decreases rs@.len() - idx,
    {
        let ghost pref = rv.subrange(0, idx as int);
        if idx > 0 {
            push_char(&mut out, ' ');
            proof {
                assert(out@ =~= ser_rules(pref) + seq![' ']);
            }
        }
        proof {
            assert(wf_rule(rv[idx as int]));
            assert(rv[idx as int] == rs@[idx as int].deep_view());
        }
        let piece = serialize_rule(&rs[idx]);
        out.append(piece.as_str());
        proof {
            lemma_ser_rules_snoc(pref, rv[idx as int]);
            assert(rv.subrange(0, (idx + 1) as int) =~= pref.push(rv[idx as int]));
            if idx > 0 {
                assert(out@ =~= (ser_rules(pref) + seq![' ']) + ser_rule(rv[idx as int]));
            } else {
                assert(pref.len() == 0);
                assert(out@ =~= ser_rule(rv[idx as int]));
            }
        }
        idx = idx + 1;
    }
    proof {
        assert(rv.subrange(0, rv.len() as int) =~= rv);
    }
    observe_space_class();
    proof {
        lemma_rt_parse_rules(rv);
    }
    out
}

/// Whether every rule in the sequence is well-formed on both sides.
pub fn check_rules(rs: &Vec<Rule>) -> (b: bool)
    ensures
        b == wf_rules(rules_view(rs@)),
{
    let ghost rv = rules_view(rs@);
    let mut i: usize = 0;
    while i < rs.len()
        invariant
            i <= rs@.len(),
            rv == rules_view(rs@),
            rv.len() == rs@.len(),
            forall|q: int| 0 <= q < i ==> #[trigger] wf_rule(rv[q]),
        decreases rs@.len() - i,
    {
        if !check_rule(&rs[i]) {
            proof {
                assert(!wf_rule(rv[i as int]));
            }
            return false;
        }
        i = i + 1;
    }
    true
}

/// The canonical text of the rule sequence, or `None` when some rule in it
/// holds a term that is not well-formed.
pub fn try_serialize_rules(rs: &Vec<Rule>) -> (res: Option<String>)
    ensures
        (match res {
            Some(out) => wf_rules(rules_view(rs@)) && out@ == ser_rules(rules_view(rs@))
                && sp_parse_rules(out@) == Ok::<Seq<RuleV>, ErrV>(rules_view(rs@)),
            None => !wf_rules(rules_view(rs@)),
        }),
{
    if check_rules(rs) {
        Some(serialize_rules(rs))
    } else {
        None
    }
}

/// The canonical text of the rule, or `None` when either side holds a term
/// that is not well-formed.
pub fn try_serialize_rule(r: &Rule) -> (res: Option<String>)
    ensures
        (match res {
            Some(out) => wf_rule(r.deep_view()) && out@ == ser_rule(r.deep_view())
                && sp_parse_rule(out@) == Ok::<RuleV, ErrV>(r.deep_view()),
            None => !wf_rule(r.deep_view()),
        }),
{
    if check_rule(r) {
        Some(serialize_rule(r))
    } else {
        None
    }
}

/// The canonical text of the term, or `None` when the term is not
/// well-formed (a word empty or holding a non-word character).
pub fn try_serialize_term(t: &Term) -> (r: Option<String>)
    ensures
        (match r {
            Some(out) => wf_term(term_view(*t)) && out@ == ser_term(term_view(*t))
                && sp_parse_term(out@) == Ok::<TermV, ErrV>(term_view(*t)),
            None => !wf_term(term_view(*t)),
        }),
{
    if check_term(t) {
        Some(serialize_term(t))
    } else {
        None
    }
}

/// The canonical text of the term sequence, or `None` when some term in it
/// is not well-formed.
pub fn try_serialize_terms(ts: &Vec<Term>) -> (r: Option<String>)
    ensures
        (match r {
            Some(out) => wf_terms(terms_view(ts@)) && out@ == ser_terms(terms_view(ts@))
                && sp_parse_terms(out@) == Ok::<Seq<TermV>, ErrV>(terms_view(ts@)),
            None => !wf_terms(terms_view(ts@)),
        }),
{
    if check_terms(ts) {
        Some(serialize_terms(ts))
    } else {
        None
    }
}

} // verus!
