//! Per-character lexical classification, based on the Unicode general
//! category of the code point.

use vstd::prelude::*;

verus! {

/// The lexical class of a single code point.
///
/// Reserved characters are structural delimiters and can never occur inside
/// a word; separators only delimit tokens; anything that is neither a word
/// component, a separator, nor reserved is rejected by the grammar.
#[derive(Clone, Copy, Debug, PartialEq, Eq, Structural)]
pub enum CharClass {
    WordComponent,
    Separator,
    Reserved,
    Other,
}

/// The four reserved characters of the surface language.
pub open spec fn is_reserved(c: char) -> bool {
    c == '(' || c == ')' || c == ';' || c == '='
}

/// Whether the Unicode general category of `c` is in the letter, number,
/// punctuation or symbol group. Determined by the Unicode character
/// database; a function of the code point alone.
pub uninterp spec fn in_word_category(c: char) -> bool;

/// Whether the Unicode general category of `c` is in the separator group.
/// Determined by the Unicode character database; a function of the code
/// point alone.
pub uninterp spec fn in_separator_category(c: char) -> bool;

/// Relies on unic_ucd's `GeneralCategory::of`, which returns the Unicode
/// general category of the code point (a function of the code point alone),
/// and on its group predicates `is_letter`, `is_number`, `is_punctuation`
/// and `is_symbol`. U+0020 SPACE has category Zs (space separator), which
/// lies in none of those four groups.
#[verifier::external_body]
fn check_word_category(c: char) -> (r: bool)
    ensures
        r == in_word_category(c),
        c == ' ' ==> !r,
{
    let cat = unic_ucd::category::GeneralCategory::of(c);
    cat.is_letter() || cat.is_number() || cat.is_punctuation() || cat.is_symbol()
}

/// Relies on unic_ucd's `GeneralCategory::of` and its group predicate
/// `is_separator` (categories Zs, Zl, Zp). U+0020 SPACE has category Zs,
/// so it is in the separator group.
#[verifier::external_body]
fn check_separator_category(c: char) -> (r: bool)
    ensures
        r == in_separator_category(c),
        c == ' ' ==> r,
{
    unic_ucd::category::GeneralCategory::of(c).is_separator()
}

/// A character can be part of a word iff it is not reserved and its general
/// category is in the letter, number, punctuation or symbol group.
pub open spec fn word_char(c: char) -> bool {
    !is_reserved(c) && in_word_category(c)
}

/// A character delimits tokens iff it is in the separator group (and in no
/// other class; the classes are tried in a fixed order, so they are
/// disjoint by construction, as the Unicode category groups are).
pub open spec fn sep_char(c: char) -> bool {
    !is_reserved(c) && !in_word_category(c) && in_separator_category(c)
}

/// The classification that `classify` computes.
pub open spec fn spec_classify(c: char) -> CharClass {
    if is_reserved(c) {
        CharClass::Reserved
    } else if in_word_category(c) {
        CharClass::WordComponent
    } else if in_separator_category(c) {
        CharClass::Separator
    } else {
        CharClass::Other
    }
}

/// Classify one code point: reserved characters first, then the Unicode
/// category groups.
pub fn classify(c: char) -> (k: CharClass)
    ensures
        k == spec_classify(c),
        (k == CharClass::WordComponent) == word_char(c),
        (k == CharClass::Separator) == sep_char(c),
{
    if c == '(' || c == ')' || c == ';' || c == '=' {
        CharClass::Reserved
    } else if check_word_category(c) {
        CharClass::WordComponent
    } else if check_separator_category(c) {
        CharClass::Separator
    } else {
        CharClass::Other
    }
}

/// U+0020 SPACE is a separator and not a word component. The classification
/// of concrete characters lives in the Unicode database outside this crate,
/// so the fact is obtained by consulting it.
pub fn observe_space_class()
    ensures
        sep_char(' ') && !word_char(' '),
{
    let w = check_word_category(' ');
    let s = check_separator_category(' ');
    proof {
        assert(!w && s);
    }
}

} // verus!
