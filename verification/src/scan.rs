//! The scan as a state machine over the words of a source.
//!
//! Between two words the scan is either outside any string literal or inside
//! one, and then it holds what it has read of the literal so far. Each word
//! moves it on and yields tokens and diagnostics.

use vstd::prelude::*;
use crate::chars::{QUOTE, SPACE};
use crate::grammar::classify;
use crate::token::{DiagnosticView, Literal, TokenType, TokenView};
use crate::words::{find, fragments, is_char, pieces};

verus! {

/// What a scan yields: tokens and diagnostics, each in the order in which
/// they were found.
pub struct Output {
    pub tokens: Seq<TokenView>,
    pub diagnostics: Seq<DiagnosticView>,
}

impl Output {
    /// Nothing.
    pub open spec fn empty() -> Output {
        Output { tokens: Seq::empty(), diagnostics: Seq::empty() }
    }

    /// One token.
    pub open spec fn token(kind: TokenType, text: Seq<char>) -> Output {
        Output { tokens: seq![TokenView { kind, text }], diagnostics: Seq::empty() }
    }

    /// One diagnostic.
    pub open spec fn diagnostic(diagnostic: DiagnosticView) -> Output {
        Output { tokens: Seq::empty(), diagnostics: seq![diagnostic] }
    }

    /// How many tokens and diagnostics there are, taken together.
    pub open spec fn len(self) -> nat {
        self.tokens.len() + self.diagnostics.len()
    }

    /// This output, followed by `next`.
    pub open spec fn followed_by(self, next: Output) -> Output {
        Output {
            tokens: self.tokens + next.tokens,
            diagnostics: self.diagnostics + next.diagnostics,
        }
    }
}

/// Where the scan stands between two words.
#[derive(Debug, PartialEq, Eq)]
pub enum ScanState {
    /// Outside any string literal.
    Scanning,
    /// Inside a string literal, of which the text given has been read.
    InString(String),
}

/// The state of the scan as contracts see it.
pub enum ScanStateView {
    Scanning,
    InString(Seq<char>),
}

impl View for ScanState {
    type V = ScanStateView;

    open spec fn view(&self) -> ScanStateView {
        match self {
            ScanState::Scanning => ScanStateView::Scanning,
            ScanState::InString(buffer) => ScanStateView::InString(buffer@),
        }
    }
}

impl Clone for ScanState {
    fn clone(&self) -> (copy: Self)
        ensures
            copy == *self,
    {
        match self {
            ScanState::Scanning => ScanState::Scanning,
            ScanState::InString(buffer) => ScanState::InString(buffer.clone()),
        }
    }
}

/// The state after some words, and what they yielded.
pub struct Step {
    pub state: ScanStateView,
    pub output: Output,
}

/// What one fragment yields: its token, or the diagnostic that it earns.
pub open spec fn lex_fragment(frag: Seq<char>) -> Output {
    match classify(frag) {
        Ok(kind) => Output::token(kind, frag),
        Err(diagnostic) => Output::diagnostic(diagnostic),
    }
}

/// What a run of fragments yields: what each of them yields by itself, in
/// their order. A fragment that is no token does not stop the run.
pub open spec fn lex_fragments(frags: Seq<Seq<char>>) -> Output
    decreases frags.len(),
{
    if frags.len() == 0 {
        Output::empty()
    } else {
        lex_fragment(frags[0]).followed_by(lex_fragments(frags.drop_first()))
    }
}

/// What a word outside any string literal yields.
pub open spec fn lex_word(word: Seq<char>) -> Output {
    lex_fragments(fragments(word))
}

/// One move of the scan.
///
/// Outside a string, a word without a quote is lexed as it is. A quote opens
/// a string: what stands before it is lexed, what stands behind it is the
/// beginning of the string, further quotes included. Inside a string, a word
/// without a quote is added to the string after one space. A quote closes
/// the string: what stands before it is added after one space, the string
/// becomes a token, and what stands behind the quote is lexed as a word
/// outside any string, so a quote there opens nothing.
pub open spec fn step(state: ScanStateView, word: Seq<char>) -> Step {
    match (state, find(word, is_char(QUOTE))) {
        (ScanStateView::Scanning, None) => Step {
            state: ScanStateView::Scanning,
            output: lex_word(word),
        },
        (ScanStateView::Scanning, Some(at)) => Step {
            state: ScanStateView::InString(word.skip(at + 1)),
            output: lex_word(word.take(at)),
        },
        (ScanStateView::InString(buffer), None) => Step {
            state: ScanStateView::InString(buffer + seq![SPACE] + word),
            output: Output::empty(),
        },
        (ScanStateView::InString(buffer), Some(at)) => Step {
            state: ScanStateView::Scanning,
            output: Output::token(
                TokenType::Literal(Literal::Str),
                buffer + seq![SPACE] + word.take(at),
            ).followed_by(lex_word(word.skip(at + 1))),
        },
    }
}

/// The moves of the scan over `words`, from `state` on.
pub open spec fn scan(state: ScanStateView, words: Seq<Seq<char>>) -> Step
    decreases words.len(),
{
    if words.len() == 0 {
        Step { state, output: Output::empty() }
    } else {
        let first = step(state, words[0]);
        let rest = scan(first.state, words.drop_first());
        Step { state: rest.state, output: first.output.followed_by(rest.output) }
    }
}

/// What the end of the source yields: inside a string, the diagnostic that
/// the string was not closed. What was read of that string becomes no token.
pub open spec fn at_end(state: ScanStateView) -> Output {
    match state {
        ScanStateView::Scanning => Output::empty(),
        ScanStateView::InString(_) => Output::diagnostic(DiagnosticView::UnterminatedString),
    }
}

/// What the words of a source yield, scanned from the first to the last.
pub open spec fn lex(words: Seq<Seq<char>>) -> Output {
    let end = scan(ScanStateView::Scanning, words);
    end.output.followed_by(at_end(end.state))
}

/// What a source text yields.
pub open spec fn lex_source(source: Seq<char>) -> Output {
    lex(pieces(source, SPACE))
}

/// Outputs in a row can be grouped either way.
pub proof fn lemma_followed_by_associative(a: Output, b: Output, c: Output)
    ensures
        a.followed_by(b).followed_by(c) == a.followed_by(b.followed_by(c)),
{
    let left = a.followed_by(b).followed_by(c);
    let right = a.followed_by(b.followed_by(c));
    assert(left.tokens =~= right.tokens);
    assert(left.diagnostics =~= right.diagnostics);
}

/// The empty output changes nothing, before or behind.
pub proof fn lemma_followed_by_empty(a: Output)
    ensures
        a.followed_by(Output::empty()) == a,
        Output::empty().followed_by(a) == a,
{
    assert(a.followed_by(Output::empty()).tokens =~= a.tokens);
    assert(a.followed_by(Output::empty()).diagnostics =~= a.diagnostics);
    assert(Output::empty().followed_by(a).tokens =~= a.tokens);
    assert(Output::empty().followed_by(a).diagnostics =~= a.diagnostics);
}

} // verus!
