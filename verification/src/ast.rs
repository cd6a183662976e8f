//! The abstract syntax tree produced by the parser, its mathematical model,
//! and the error type for failed parses.

use vstd::prelude::*;

use crate::classify::word_char;

verus! {

broadcast use vstd::std_specs::vec::group_vec_axioms;

/// A node of the parsed tree.
#[derive(Debug)]
pub enum Term {
    /// An owned, non-empty string of word characters.
    Word(String),
    /// A parenthesized, ordered sequence of zero or more terms.
    Quote(Vec<Term>),
}

/// The mathematical value of a `Term`.
#[verifier::ext_equal]
pub enum TermV {
    Word(Seq<char>),
    Quote(Seq<TermV>),
}

/// The value of a `Term`: words become their character sequences, quotes
/// the sequence of their children's values.
pub open spec fn term_view(t: Term) -> TermV
    decreases t,
{
    match t {
        Term::Word(s) => TermV::Word(s@),
        Term::Quote(ts) => {
            proof {
                assert(decreases_to!(ts => ts@));
            }
            TermV::Quote(terms_view(ts@))
        },
    }
}

/// The values of a sequence of `Term`s, in order.
pub open spec fn terms_view(ts: Seq<Term>) -> Seq<TermV>
    decreases ts,
{
    if ts.len() == 0 {
        Seq::empty()
    } else {
        seq![term_view(ts[0])] + terms_view(ts.subrange(1, ts.len() as int))
    }
}

/// `terms_view` maps `term_view` over the sequence, element by element.
pub proof fn lemma_terms_view_index(ts: Seq<Term>)
    ensures
        terms_view(ts).len() == ts.len(),
        forall|i: int| 0 <= i < ts.len() ==> terms_view(ts)[i] == term_view(ts[i]),
    decreases ts.len(),
{
    if ts.len() > 0 {
        lemma_terms_view_index(ts.subrange(1, ts.len() as int));
        assert forall|i: int| 0 <= i < ts.len() implies terms_view(ts)[i] == term_view(ts[i]) by {
            if i > 0 {
                assert(ts.subrange(1, ts.len() as int)[i - 1] == ts[i]);
            }
        }
    }
}

impl DeepView for Term {
    type V = TermV;

    open spec fn deep_view(&self) -> TermV {
        term_view(*self)
    }
}

impl View for Term {
    type V = TermV;

    open spec fn view(&self) -> TermV {
        term_view(*self)
    }
}

impl Term {
    /// Make a word term from its text.
    pub fn new_word(word: String) -> (t: Term)
        ensures
            t@ == TermV::Word(word@),
    {
        Term::Word(word)
    }

    /// Make a quote term from its children.
    pub fn new_quote(terms: Vec<Term>) -> (t: Term)
        ensures
            t@ == TermV::Quote(terms_view(terms@)),
    {
        Term::Quote(terms)
    }
}

/// A rewrite rule: a pattern and a replacement, each an ordered sequence of
/// terms. Either sequence may be empty.
#[derive(Debug)]
pub struct Rule {
    pub pattern: Vec<Term>,
    pub replacement: Vec<Term>,
}

/// The mathematical value of a `Rule`.
#[verifier::ext_equal]
pub struct RuleV {
    pub pattern: Seq<TermV>,
    pub replacement: Seq<TermV>,
}

impl Rule {
    /// Make a rule from its pattern and replacement.
    pub fn new(pattern: Vec<Term>, replacement: Vec<Term>) -> (r: Rule)
        ensures
            r@ == (RuleV {
                pattern: terms_view(pattern@),
                replacement: terms_view(replacement@),
            }),
    {
        Rule { pattern, replacement }
    }
}

impl DeepView for Rule {
    type V = RuleV;

    open spec fn deep_view(&self) -> RuleV {
        RuleV { pattern: terms_view(self.pattern@), replacement: terms_view(self.replacement@) }
    }
}

impl View for Rule {
    type V = RuleV;

    open spec fn view(&self) -> RuleV {
        self.deep_view()
    }
}

/// Well-formedness of a term value: every word is non-empty and consists of
/// word characters only (so no word contains a reserved or separator
/// character).
pub open spec fn wf_term(t: TermV) -> bool
    decreases t,
{
    match t {
        TermV::Word(w) => w.len() > 0 && (forall|i: int| 0 <= i < w.len() ==> word_char(w[i])),
        TermV::Quote(ts) => wf_terms(ts),
    }
}

/// Well-formedness of a sequence of term values.
pub open spec fn wf_terms(ts: Seq<TermV>) -> bool
    decreases ts,
{
    ts.len() == 0 || (wf_term(ts[0]) && wf_terms(ts.subrange(1, ts.len() as int)))
}

/// `wf_terms` holds exactly when every element is well-formed.
pub proof fn lemma_wf_terms_index(ts: Seq<TermV>)
    ensures
        wf_terms(ts) <==> (forall|i: int| 0 <= i < ts.len() ==> #[trigger] wf_term(ts[i])),
    decreases ts.len(),
{
    if ts.len() > 0 {
        lemma_wf_terms_index(ts.subrange(1, ts.len() as int));
        if wf_terms(ts) {
            assert forall|i: int| 0 <= i < ts.len() implies #[trigger] wf_term(ts[i]) by {
                if i > 0 {
                    assert(ts.subrange(1, ts.len() as int)[i - 1] == ts[i]);
                }
            }
        }
        if forall|i: int| 0 <= i < ts.len() ==> #[trigger] wf_term(ts[i]) {
            assert(wf_term(ts[0]));
            assert forall|i: int|
                0 <= i < ts.subrange(1, ts.len() as int).len() implies #[trigger] wf_term(
                ts.subrange(1, ts.len() as int)[i],
            ) by {
                assert(ts.subrange(1, ts.len() as int)[i] == ts[i + 1]);
            }
        }
    }
}

/// Well-formedness of a rule value.
pub open spec fn wf_rule(r: RuleV) -> bool {
    wf_terms(r.pattern) && wf_terms(r.replacement)
}

/// The values of a sequence of `Rule`s, in order.
pub open spec fn rules_view(rs: Seq<Rule>) -> Seq<RuleV> {
    Seq::new(rs.len(), |i: int| rs[i].deep_view())
}

/// Well-formedness of a sequence of rule values.
pub open spec fn wf_rules(rs: Seq<RuleV>) -> bool {
    forall|i: int| 0 <= i < rs.len() ==> #[trigger] wf_rule(rs[i])
}

/// Whether two terms are the same tree: equal words in equal positions
/// under equal nesting. Terms have no other observable identity, so this is
/// equality of their values.
#[verifier::loop_isolation(false)]
pub fn term_eq(a: &Term, b: &Term) -> (r: bool)
    ensures
        r == (term_view(*a) == term_view(*b)),
    decreases *a,
{
    match a {
        Term::Word(x) => match b {
            Term::Word(y) => *x == *y,
            Term::Quote(ys) => false,
        },
        Term::Quote(xs) => match b {
            Term::Word(y) => false,
            Term::Quote(ys) => terms_eq(xs, ys),
        },
    }
}

/// Whether two term sequences hold the same trees in the same order.
#[verifier::loop_isolation(false)]
pub fn terms_eq(xs: &Vec<Term>, ys: &Vec<Term>) -> (r: bool)
    ensures
        r == (terms_view(xs@) == terms_view(ys@)),
    decreases xs@,
{
    proof {
        lemma_terms_view_index(xs@);
        lemma_terms_view_index(ys@);
    }
    if xs.len() != ys.len() {
        return false;
    }
    let mut i: usize = 0;
    while i < xs.len()
        invariant
            i <= xs@.len(),
            forall|q: int| 0 <= q < i ==> terms_view(xs@)[q] == #[trigger] terms_view(ys@)[q],
        decreases xs@.len() - i,
    {
        if !term_eq(&xs[i], &ys[i]) {
            proof {
                assert(terms_view(xs@)[i as int] != terms_view(ys@)[i as int]);
            }
            return false;
        }
        i = i + 1;
    }
    proof {
        assert(terms_view(xs@) =~= terms_view(ys@));
    }
    true
}

/// Whether two rules are the same: equal patterns and equal replacements.
pub fn rule_eq(a: &Rule, b: &Rule) -> (r: bool)
    ensures
        r == (a.deep_view() == b.deep_view()),
{
    terms_eq(&a.pattern, &b.pattern) && terms_eq(&a.replacement, &b.replacement)
}

/// What the parser was looking for at the position where it failed.
#[derive(Debug, Clone, Copy, PartialEq, Eq, Structural)]
pub enum Expected {
    /// A term had to start here: a word character or `(`.
    WordOrOpenParen,
    /// The `)` closing a quote.
    CloseParen,
    /// The `=` separating a rule's pattern from its replacement.
    EqualSign,
    /// The `;` terminating a rule.
    Semicolon,
    /// Nothing further: the whole input had to be consumed.
    EndOfInput,
}

/// A failed parse: the character offset of the first position where no
/// alternative matched, and what was expected there. Parsing is
/// all-or-nothing; no partial result accompanies an error.
#[derive(Debug, Clone, Copy, PartialEq, Eq, Structural)]
pub struct SyntaxError {
    /// Offset in characters (not bytes) from the start of the input.
    pub position: usize,
    /// The syntactic alternative expected at `position`.
    pub expected: Expected,
}

/// The mathematical value of a `SyntaxError`.
pub struct ErrV {
    pub pos: int,
    pub expected: Expected,
}

impl View for SyntaxError {
    type V = ErrV;

    open spec fn view(&self) -> ErrV {
        ErrV { pos: self.position as int, expected: self.expected }
    }
}

} // verus!
