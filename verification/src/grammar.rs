//! The rules that say what kind of token a word is.
//!
//! They are tried in a fixed order, and the first that fits decides: integer
//! literal, keyword, identifier, operator. The identifier rule fails on a
//! word that begins with a capital letter, and no later rule is tried on such
//! a word. A word that fits no rule is unknown.

use vstd::prelude::*;
use crate::chars::{is_ascii_digit, is_ascii_lowercase, is_ascii_uppercase, is_whitespace, QUOTE};
use crate::token::{DiagnosticView, Literal, TokenType};

verus! {

/// A character of an integer literal: a digit or a dash.
#[verifier::allow_in_spec]
pub fn is_int_char(c: char) -> bool
    returns
        is_ascii_digit(c) || c == '-',
{
    is_ascii_digit(c) || c == '-'
}

/// A character that an identifier may hold after its first: a small letter,
/// a digit or an underscore.
#[verifier::allow_in_spec]
pub fn is_identifier_char(c: char) -> bool
    returns
        is_ascii_lowercase(c) || is_ascii_digit(c) || c == '_',
{
    is_ascii_lowercase(c) || is_ascii_digit(c) || c == '_'
}

/// An integer literal is made of digits and dashes, in any order and number.
/// Where the dashes stand is not looked at, so `-` and `1-2` are integer
/// literals too.
pub open spec fn is_literal_int(w: Seq<char>) -> bool {
    forall|i: int| 0 <= i < w.len() ==> is_int_char(#[trigger] w[i])
}

/// The keywords: `main`, `in`, `out`, `int`, `str`.
pub open spec fn is_keyword(w: Seq<char>) -> bool {
    w == "main"@ || w == "in"@ || w == "out"@ || w == "int"@ || w == "str"@
}

/// An identifier begins with a small letter and goes on with small letters,
/// digits and underscores.
pub open spec fn is_identifier(w: Seq<char>) -> bool {
    &&& w.len() > 0
    &&& is_ascii_lowercase(w[0])
    &&& forall|i: int| 1 <= i < w.len() ==> is_identifier_char(#[trigger] w[i])
}

/// A word that begins with a capital letter is taken for an identifier that
/// begins wrongly.
pub open spec fn has_invalid_identifier_start(w: Seq<char>) -> bool {
    w.len() > 0 && is_ascii_uppercase(w[0])
}

/// The identifier rule: it fails on a wrong beginning, and else says whether
/// the word is an identifier.
pub open spec fn identifier_rule(w: Seq<char>) -> Result<bool, DiagnosticView> {
    if has_invalid_identifier_start(w) {
        Err(DiagnosticView::InvalidIdentifierStart(w))
    } else {
        Ok(is_identifier(w))
    }
}

/// The operators: `:=`, `+`, `-`.
pub open spec fn is_operator(w: Seq<char>) -> bool {
    w == ":="@ || w == "+"@ || w == "-"@
}

/// The kind of token that `w` is, or the diagnostic that it earns.
pub open spec fn classify(w: Seq<char>) -> Result<TokenType, DiagnosticView> {
    if is_literal_int(w) {
        Ok(TokenType::Literal(Literal::Int))
    } else if is_keyword(w) {
        Ok(TokenType::Keyword)
    } else {
        match identifier_rule(w) {
            Err(diagnostic) => Err(diagnostic),
            Ok(true) => Ok(TokenType::Identifier),
            Ok(false) => if is_operator(w) {
                Ok(TokenType::Operator)
            } else {
                Err(DiagnosticView::UnknownToken(w))
            },
        }
    }
}

/// A well-formed word: not empty, and a token of one of the four kinds.
pub open spec fn is_well_formed(w: Seq<char>) -> bool {
    w.len() > 0 && classify(w) is Ok
}

/// A character that may stand in a well-formed word.
pub open spec fn is_plain(c: char) -> bool {
    !is_whitespace(c) && c != QUOTE
}

/// A well-formed word holds neither white space nor a quote.
pub proof fn lemma_well_formed_is_plain(w: Seq<char>)
    requires
        is_well_formed(w),
    ensures
        forall|i: int| 0 <= i < w.len() ==> is_plain(#[trigger] w[i]),
{
    reveal_strlit("main");
    reveal_strlit("in");
    reveal_strlit("out");
    reveal_strlit("int");
    reveal_strlit("str");
    reveal_strlit(":=");
    reveal_strlit("+");
    reveal_strlit("-");
    assert forall|i: int| 0 <= i < w.len() implies is_plain(#[trigger] w[i]) by {
        if is_literal_int(w) {
            assert(is_int_char(w[i]));
        } else if is_keyword(w) {
        } else if is_identifier(w) {
            if i > 0 {
                assert(is_identifier_char(w[i]));
            }
        } else {
            assert(is_operator(w));
        }
    }
}

/// The integer rule comes first: a word of digits and dashes is an integer
/// literal, also where a later rule would fit it. So the dash alone is an
/// integer literal and never an operator.
pub proof fn lemma_integer_rule_comes_first(w: Seq<char>)
    requires
        is_literal_int(w),
    ensures
        classify(w) == Ok::<TokenType, DiagnosticView>(TokenType::Literal(Literal::Int)),
        is_operator("-"@) && is_literal_int("-"@),
{
    reveal_strlit("-");
}

/// A word that begins with a capital letter is never a token, and never
/// unknown: it earns the diagnostic of the identifier rule.
pub proof fn lemma_capital_start_is_rejected(w: Seq<char>)
    requires
        has_invalid_identifier_start(w),
    ensures
        classify(w) == Err::<TokenType, DiagnosticView>(DiagnosticView::InvalidIdentifierStart(w)),
{
    reveal_strlit("main");
    reveal_strlit("in");
    reveal_strlit("out");
    reveal_strlit("int");
    reveal_strlit("str");
    assert(!is_int_char(w[0]));
}

/// No word is classified as a string literal: that kind comes from the
/// quotes alone.
pub proof fn lemma_classify_gives_no_string(w: Seq<char>)
    ensures
        classify(w) != Ok::<TokenType, DiagnosticView>(TokenType::Literal(Literal::Str)),
{
}

} // verus!
