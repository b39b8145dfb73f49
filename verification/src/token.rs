//! Tokens and diagnostics, and what each of them stands for in contracts.

use vstd::prelude::*;

verus! {

/// The kinds of literal.
#[derive(Debug, Clone, Copy, PartialEq, Eq, Structural)]
pub enum Literal {
    Int,
    Str,
}

/// The category of a token.
#[derive(Debug, Clone, Copy, PartialEq, Eq, Structural)]
pub enum TokenType {
    Identifier,
    Keyword,
    Literal(Literal),
    Operator,
}

/// A classified lexeme. A string literal is held without its quotes.
#[derive(Debug, PartialEq, Eq)]
pub struct Token {
    pub token_type: TokenType,
    pub token_data: String,
}

/// A token as contracts see it.
pub struct TokenView {
    pub kind: TokenType,
    pub text: Seq<char>,
}

impl View for Token {
    type V = TokenView;

    open spec fn view(&self) -> TokenView {
        TokenView { kind: self.token_type, text: self.token_data@ }
    }
}

impl Clone for Token {
    fn clone(&self) -> (copy: Self)
        ensures
            copy == *self,
    {
        Token { token_type: self.token_type, token_data: self.token_data.clone() }
    }
}

impl DeepView for Token {
    type V = TokenView;

    open spec fn deep_view(&self) -> TokenView {
        self@
    }
}

/// A lexical problem that the scan met and went past.
#[derive(Debug, PartialEq, Eq)]
pub enum Diagnostic {
    /// The word fits no rule.
    UnknownToken(String),
    /// The word begins with a capital letter, where an identifier has to
    /// begin with a small one.
    InvalidIdentifierStart(String),
    /// The source ended inside a string literal.
    UnterminatedString,
}

/// A diagnostic as contracts see it.
pub enum DiagnosticView {
    UnknownToken(Seq<char>),
    InvalidIdentifierStart(Seq<char>),
    UnterminatedString,
}

impl View for Diagnostic {
    type V = DiagnosticView;

    open spec fn view(&self) -> DiagnosticView {
        match self {
            Diagnostic::UnknownToken(word) => DiagnosticView::UnknownToken(word@),
            Diagnostic::InvalidIdentifierStart(word) => DiagnosticView::InvalidIdentifierStart(
                word@,
            ),
            Diagnostic::UnterminatedString => DiagnosticView::UnterminatedString,
        }
    }
}

impl Clone for Diagnostic {
    fn clone(&self) -> (copy: Self)
        ensures
            copy == *self,
    {
        match self {
            Diagnostic::UnknownToken(word) => Diagnostic::UnknownToken(word.clone()),
            Diagnostic::InvalidIdentifierStart(word) => Diagnostic::InvalidIdentifierStart(
                word.clone(),
            ),
            Diagnostic::UnterminatedString => Diagnostic::UnterminatedString,
        }
    }
}

impl DeepView for Diagnostic {
    type V = DiagnosticView;

    open spec fn deep_view(&self) -> DiagnosticView {
        self@
    }
}

impl DiagnosticView {
    /// The sentence that reports the diagnostic.
    pub open spec fn message(self) -> Seq<char> {
        match self {
            DiagnosticView::UnknownToken(word) => "Unknown token: "@ + word,
            DiagnosticView::InvalidIdentifierStart(_) =>
                "Identifiers should start with a lowercase letter."@,
            DiagnosticView::UnterminatedString => "Unterminated string literal."@,
        }
    }
}

impl Diagnostic {
    /// The sentence that reports the diagnostic, for a reader.
    pub fn message(&self) -> (text: String)
        ensures
            text@ == self@.message(),
    {
        match self {
            Diagnostic::UnknownToken(word) => {
                String::from_str("Unknown token: ").concat(word.as_str())
            },
            Diagnostic::InvalidIdentifierStart(_) => {
                String::from_str("Identifiers should start with a lowercase letter.")
            },
            Diagnostic::UnterminatedString => String::from_str("Unterminated string literal."),
        }
    }
}

} // verus!
