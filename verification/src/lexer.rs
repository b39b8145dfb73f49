//! The tokenizer: the words of a source, and the tokens and diagnostics that
//! scanning them has yielded so far.

use vstd::prelude::*;
use crate::chars::{is_ascii_lowercase, is_ascii_uppercase, QUOTE, SPACE};
use crate::grammar;
use crate::grammar::{identifier_rule, is_identifier_char, is_int_char};
use crate::scan::{
    at_end, lemma_followed_by_associative, lemma_followed_by_empty, lex, lex_fragment,
    lex_fragments, lex_word, scan, step, Output, ScanState, ScanStateView, Step,
};
use crate::token::{Diagnostic, DiagnosticView, Literal, Token, TokenType, TokenView};
use crate::words::{
    find_char, fragments, lemma_fragments_of_word, lemma_pieces, pieces, same_text, split,
    split_whitespace,
};

verus! {

/// Splits a source into words when it is made, and turns the words into
/// tokens when it is told to. Words that are no tokens are recorded as
/// diagnostics, and the scan goes on behind them.
#[derive(Debug)]
pub struct Tokenizer {
    input: Vec<String>,
    tokens: Vec<Token>,
    diagnostics: Vec<Diagnostic>,
}

/// A tokenizer as contracts see it.
pub struct TokenizerView {
    /// The words of the source, in order.
    pub words: Seq<Seq<char>>,
    /// The tokens found so far, in the order of the source.
    pub tokens: Seq<TokenView>,
    /// The diagnostics recorded so far, in the order of the source.
    pub diagnostics: Seq<DiagnosticView>,
}

/// What the words of a source are: at least one, and none with a space in it.
pub open spec fn is_word_list(words: Seq<Seq<char>>) -> bool {
    &&& words.len() >= 1
    &&& forall|k: int| 0 <= k < words.len() ==> !(#[trigger] words[k]).contains(SPACE)
}

impl TokenizerView {
    /// A tokenizer that was made for `source` and has not scanned yet.
    pub open spec fn fresh(source: Seq<char>) -> TokenizerView {
        TokenizerView {
            words: pieces(source, SPACE),
            tokens: Seq::empty(),
            diagnostics: Seq::empty(),
        }
    }

    /// The same tokenizer with `output` added behind what it holds.
    pub open spec fn with(self, output: Output) -> TokenizerView {
        TokenizerView {
            words: self.words,
            tokens: self.tokens + output.tokens,
            diagnostics: self.diagnostics + output.diagnostics,
        }
    }

    /// The tokenizer after a scan of its words.
    pub open spec fn scanned(self) -> TokenizerView {
        self.with(lex(self.words))
    }

    /// Adding two outputs in turn adds the one followed by the other.
    pub proof fn lemma_with_twice(self, a: Output, b: Output)
        ensures
            self.with(a).with(b) == self.with(a.followed_by(b)),
    {
        assert(self.with(a).with(b).tokens =~= self.with(a.followed_by(b)).tokens);
        assert(self.with(a).with(b).diagnostics =~= self.with(a.followed_by(b)).diagnostics);
    }

    /// Adding keeps what is held, in its place: tokens and diagnostics are
    /// never taken away or put in another order.
    pub proof fn lemma_with_keeps(self, output: Output)
        ensures
            self.tokens.is_prefix_of(self.with(output).tokens),
            self.diagnostics.is_prefix_of(self.with(output).diagnostics),
            self.with(output).words == self.words,
    {
    }

    /// Adding nothing changes nothing.
    pub proof fn lemma_with_nothing(self)
        ensures
            self.with(Output::empty()) == self,
    {
        assert(self.with(Output::empty()).tokens =~= self.tokens);
        assert(self.with(Output::empty()).diagnostics =~= self.diagnostics);
    }
}

impl View for Tokenizer {
    type V = TokenizerView;

    closed spec fn view(&self) -> TokenizerView {
        TokenizerView {
            words: self.input.deep_view(),
            tokens: self.tokens.deep_view(),
            diagnostics: self.diagnostics.deep_view(),
        }
    }
}

impl Tokenizer {
    /// A tokenizer for `input`, which is cut into words at every space. It
    /// holds no token and no diagnostic yet.
    pub fn new(input: &str) -> (tokenizer: Self)
        ensures
            tokenizer@ == TokenizerView::fresh(input@),
            is_word_list(tokenizer@.words),
    {
        let tokenizer = Tokenizer {
            input: split(input, SPACE),
            tokens: Vec::new(),
            diagnostics: Vec::new(),
        };
        proof {
            lemma_pieces(input@, SPACE);
            assert(tokenizer@.tokens =~= Seq::<TokenView>::empty());
            assert(tokenizer@.diagnostics =~= Seq::<DiagnosticView>::empty());
        }
        tokenizer
    }

    /// The tokens found so far.
    pub fn tokens(&self) -> (tokens: &Vec<Token>)
        ensures
            tokens.deep_view() == self@.tokens,
    {
        &self.tokens
    }

    /// The diagnostics recorded so far.
    pub fn diagnostics(&self) -> (diagnostics: &Vec<Diagnostic>)
        ensures
            diagnostics.deep_view() == self@.diagnostics,
    {
        &self.diagnostics
    }

    /// The words of the source.
    pub fn words(&self) -> (words: &Vec<String>)
        ensures
            words.deep_view() == self@.words,
    {
        &self.input
    }

    /// Scans the words from the first to the last, and adds the tokens and
    /// diagnostics that they yield behind those held already. A string that
    /// is still open behind the last word is recorded as a diagnostic and
    /// becomes no token.
    pub fn tokenize(&mut self)
        ensures
            final(self)@ == old(self)@.scanned(),
    {
        let ghost start = self@;
        let ghost all = self@.words;
        let ghost done = Output::empty();
        let mut state = ScanState::Scanning;
        let n = self.input.len();
        let mut i: usize = 0;
        proof {
            start.lemma_with_nothing();
            assert(all.skip(0) =~= all);
            lemma_followed_by_empty(scan(state@, all).output);
        }
        while i < n
            invariant
                i <= n,
                n == all.len(),
                self@.words == all,
                self@ == start.with(done),
                scan(ScanStateView::Scanning, all) == (Step {
                    state: scan(state@, all.skip(i as int)).state,
                    output: done.followed_by(scan(state@, all.skip(i as int)).output),
                }),
            decreases n - i,
        {
            let word = self.input[i].clone();
            let ghost before = state@;
            state = self.scan_word(state, word.as_str());
            proof {
                let now = step(before, all[i as int]);
                let rest = scan(now.state, all.skip(i + 1));
                assert(all.skip(i as int).drop_first() =~= all.skip(i + 1));
                assert(all.skip(i as int)[0] == all[i as int]);
                start.lemma_with_twice(done, now.output);
                lemma_followed_by_associative(done, now.output, rest.output);
                done = done.followed_by(now.output);
            }
            i += 1;
        }
        proof {
            assert(all.skip(n as int).len() == 0);
            lemma_followed_by_empty(done);
            start.lemma_with_twice(done, at_end(state@));
        }
        self.finish(state);
    }

    /// Moves the scan over one word: adds what the word yields, and returns
    /// the state in which the next word is to be scanned.
    pub fn scan_word(&mut self, state: ScanState, word: &str) -> (next: ScanState)
        ensures
            next@ == step(state@, word@).state,
            final(self)@ == old(self)@.with(step(state@, word@).output),
    {
        let ghost start = self@;
        let n = word.unicode_len();
        let quote = find_char(word, QUOTE);
        match state {
            ScanState::Scanning => match quote {
                None => {
                    self.process_word(word);
                    ScanState::Scanning
                },
                Some(at) => {
                    let before = word.substring_char(0, at);
                    if at > 0 {
                        self.process_word(before);
                    } else {
                        proof {
                            lemma_fragments_of_word(before@);
                            start.lemma_with_nothing();
                        }
                    }
                    ScanState::InString(word.substring_char(at + 1, n).to_owned())
                },
            },
            ScanState::InString(buffer) => {
                let mut buffer = buffer;
                proof {
                    reveal_strlit(" ");
                    assert(" "@ =~= seq![SPACE]);
                }
                buffer.append(" ");
                match quote {
                    None => {
                        buffer.append(word);
                        proof {
                            start.lemma_with_nothing();
                        }
                        ScanState::InString(buffer)
                    },
                    Some(at) => {
                        buffer.append(word.substring_char(0, at));
                        let kind = TokenType::Literal(Literal::Str);
                        let ghost literal = Output::token(kind, buffer@);
                        self.tokens.push(Token { token_type: kind, token_data: buffer });
                        proof {
                            assert(self@.tokens =~= start.with(literal).tokens);
                            assert(self@.diagnostics =~= start.with(literal).diagnostics);
                        }
                        let rest = word.substring_char(at + 1, n);
                        if !rest.is_empty() {
                            self.process_word(rest);
                        } else {
                            proof {
                                lemma_fragments_of_word(rest@);
                                start.with(literal).lemma_with_nothing();
                            }
                        }
                        proof {
                            start.lemma_with_twice(literal, lex_word(rest@));
                        }
                        ScanState::Scanning
                    },
                }
            },
        }
    }

    /// Ends a scan: inside a string, records that the string was not closed.
    pub fn finish(&mut self, state: ScanState)
        ensures
            final(self)@ == old(self)@.with(at_end(state@)),
    {
        let ghost start = self@;
        match state {
            ScanState::Scanning => {
                proof {
                    start.lemma_with_nothing();
                }
            },
            ScanState::InString(_) => {
                self.diagnostics.push(Diagnostic::UnterminatedString);
                proof {
                    assert(self@.tokens =~= start.with(at_end(state@)).tokens);
                    assert(self@.diagnostics =~= start.with(at_end(state@)).diagnostics);
                }
            },
        }
    }

    /// Lexes a word that stands outside any string literal: cuts it at white
    /// space and adds, for each fragment in turn, its token or else its
    /// diagnostic. A fragment that is no token does not keep the fragments
    /// behind it from being lexed.
    pub fn process_word(&mut self, word: &str)
        ensures
            final(self)@ == old(self)@.with(lex_word(word@)),
    {
        let ghost start = self@;
        let ghost done = Output::empty();
        let frags = split_whitespace(word);
        let ghost all = fragments(word@);
        let n = frags.len();
        let mut k: usize = 0;
        proof {
            start.lemma_with_nothing();
            assert(all.skip(0) =~= all);
            lemma_followed_by_empty(lex_fragments(all));
        }
        while k < n
            invariant
                k <= n,
                n == all.len(),
                frags.deep_view() == all,
                self@ == start.with(done),
                lex_fragments(all) == done.followed_by(lex_fragments(all.skip(k as int))),
            decreases n - k,
        {
            let frag = frags[k];
            assert(frag@ == all[k as int]);
            assert(all.skip(k as int)[0] == all[k as int]);
            assert(all.skip(k as int).drop_first() =~= all.skip(k + 1));
            let ghost found = lex_fragment(frag@);
            let ghost before = self@;
            let outcome = if Self::is_literal_int(frag) {
                Ok(TokenType::Literal(Literal::Int))
            } else if Self::is_keyword(frag) {
                Ok(TokenType::Keyword)
            } else {
                match Self::is_identifier(frag) {
                    Err(diagnostic) => Err(diagnostic),
                    Ok(true) => Ok(TokenType::Identifier),
                    Ok(false) => if Self::is_operator(frag) {
                        Ok(TokenType::Operator)
                    } else {
                        Err(Diagnostic::UnknownToken(frag.to_owned()))
                    },
                }
            };
            match outcome {
                Ok(kind) => {
                    self.tokens.push(Token { token_type: kind, token_data: frag.to_owned() });
                    proof {
                        assert(self@.tokens =~= before.with(found).tokens);
                        assert(self@.diagnostics =~= before.with(found).diagnostics);
                    }
                },
                Err(diagnostic) => {
                    self.record(diagnostic);
                },
            }
            proof {
                start.lemma_with_twice(done, found);
                lemma_followed_by_associative(done, found, lex_fragments(all.skip(k + 1)));
                done = done.followed_by(found);
            }
            k += 1;
        }
        proof {
            lemma_followed_by_empty(done);
        }
    }

    /// Adds a diagnostic behind what is held.
    fn record(&mut self, diagnostic: Diagnostic)
        ensures
            final(self)@ == old(self)@.with(Output::diagnostic(diagnostic@)),
    {
        let ghost start = self@;
        self.diagnostics.push(diagnostic);
        proof {
            let found = Output::diagnostic(diagnostic@);
            assert(self@.tokens =~= start.with(found).tokens);
            assert(self@.diagnostics =~= start.with(found).diagnostics);
        }
    }

    /// Whether `input` is an integer literal: digits and dashes only.
    pub fn is_literal_int(input: &str) -> (r: bool)
        ensures
            r == grammar::is_literal_int(input@),
    {
        let mut r = true;
        for c in it: input.chars()
            invariant
                it.seq() == input@,
                r == (forall|i: int| 0 <= i < it.index() ==> is_int_char(#[trigger] input@[i])),
        {
            if !is_int_char(c) {
                r = false;
            }
        }
        r
    }

    /// Whether `input` is one of the keywords.
    pub fn is_keyword(input: &str) -> (r: bool)
        ensures
            r == grammar::is_keyword(input@),
    {
        same_text(input, "main") || same_text(input, "in") || same_text(input, "out")
            || same_text(input, "int") || same_text(input, "str")
    }

    /// The identifier rule. It fails on a word that begins with a capital
    /// letter, and else says whether `input` is an identifier: a small
    /// letter, then small letters, digits and underscores.
    pub fn is_identifier(input: &str) -> (r: Result<bool, Diagnostic>)
        ensures
            match r {
                Ok(found) => identifier_rule(input@) == Ok::<bool, DiagnosticView>(found),
                Err(diagnostic) => identifier_rule(input@) == Err::<bool, DiagnosticView>(
                    diagnostic@,
                ),
            },
    {
        let mut first = true;
        let mut found = false;
        for c in it: input.chars()
            invariant
                it.seq() == input@,
                first == (it.index() == 0),
                !first ==> !is_ascii_uppercase(input@[0]),
                found == (it.index() > 0 && is_ascii_lowercase(input@[0]) && forall|i: int|
                    1 <= i < it.index() ==> is_identifier_char(#[trigger] input@[i])),
        {
            if first {
                if is_ascii_uppercase(c) {
                    return Err(Diagnostic::InvalidIdentifierStart(input.to_owned()));
                }
                found = is_ascii_lowercase(c);
                first = false;
            } else if !is_identifier_char(c) {
                found = false;
            }
        }
        Ok(found)
    }

    /// Whether `input` is one of the operators.
    pub fn is_operator(input: &str) -> (r: bool)
        ensures
            r == grammar::is_operator(input@),
    {
        same_text(input, ":=") || same_text(input, "+") || same_text(input, "-")
    }
}

} // verus!
