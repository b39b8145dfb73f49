//! What holds of every scan.

use vstd::prelude::*;
use crate::chars::{is_whitespace, QUOTE, SPACE};
use crate::grammar::{classify, is_plain, is_well_formed, lemma_well_formed_is_plain};
use crate::lexer::TokenizerView;
use crate::scan::{
    at_end, lemma_followed_by_associative, lemma_followed_by_empty, lex, lex_fragment,
    lex_fragments, lex_source, lex_word, scan, step, Output, ScanStateView, Step,
};
use crate::token::{DiagnosticView, Literal, TokenType, TokenView};
use crate::words::{
    find, fragments, is_char, is_fragment, join, lemma_fragments, lemma_fragments_of_word,
    lemma_holds, lemma_join_pieces, lemma_pieces, lemma_span, lemma_span_is, pieces, span,
};

verus! {

/// The token that a well-formed word is.
pub open spec fn token_of(word: Seq<char>) -> TokenView {
    TokenView { kind: classify(word)->Ok_0, text: word }
}

/// One fragment yields its token or its diagnostic, and no more.
pub proof fn lemma_one_fragment(frag: Seq<char>)
    ensures
        lex_fragments(seq![frag]) == lex_fragment(frag),
        lex_fragment(frag).len() == 1,
{
    let only = seq![frag];
    assert(only.drop_first() =~= Seq::<Seq<char>>::empty());
    assert(lex_fragments(only.drop_first()) == Output::empty());
    lemma_followed_by_empty(lex_fragment(frag));
}

/// Fragments are lexed independently: what a run of them yields is what its
/// first part yields, followed by what the rest yields, whatever either of
/// them holds.
pub proof fn lemma_fragments_in_a_row(first: Seq<Seq<char>>, others: Seq<Seq<char>>)
    ensures
        lex_fragments(first + others) == lex_fragments(first).followed_by(lex_fragments(others)),
    decreases first.len(),
{
    if first.len() == 0 {
        assert(first + others =~= others);
        lemma_followed_by_empty(lex_fragments(others));
    } else {
        assert((first + others)[0] == first[0]);
        assert((first + others).drop_first() =~= first.drop_first() + others);
        lemma_fragments_in_a_row(first.drop_first(), others);
        lemma_followed_by_associative(
            lex_fragment(first[0]),
            lex_fragments(first.drop_first()),
            lex_fragments(others),
        );
    }
}

/// Outside a string, a well-formed word yields its one token and leaves the
/// scan outside.
pub proof fn lemma_well_formed_word(word: Seq<char>)
    requires
        is_well_formed(word),
    ensures
        step(ScanStateView::Scanning, word) == (Step {
            state: ScanStateView::Scanning,
            output: Output::token(classify(word)->Ok_0, word),
        }),
{
    lemma_well_formed_is_plain(word);
    assert forall|i: int| 0 <= i < word.len() implies !is_whitespace(#[trigger] word[i]) && word[i]
        != QUOTE by {
        assert(is_plain(word[i]));
    }
    lemma_holds(word, QUOTE);
    lemma_fragments_of_word(word);
    lemma_one_fragment(word);
}

/// Outside a string, a word without white space or a quote that is no
/// token yields its one diagnostic and no token, and leaves the scan
/// outside.
pub proof fn lemma_rejected_word(word: Seq<char>)
    requires
        is_fragment(word),
        !word.contains(QUOTE),
        classify(word) is Err,
    ensures
        step(ScanStateView::Scanning, word) == (Step {
            state: ScanStateView::Scanning,
            output: Output::diagnostic(classify(word)->Err_0),
        }),
{
    lemma_holds(word, QUOTE);
    lemma_fragments_of_word(word);
    lemma_one_fragment(word);
}

/// Well-formed words, scanned from outside a string, yield one token each,
/// in the order of the words, and no diagnostic; the scan ends outside.
pub proof fn lemma_well_formed_words(words: Seq<Seq<char>>)
    requires
        forall|i: int| 0 <= i < words.len() ==> is_well_formed(#[trigger] words[i]),
    ensures
        scan(ScanStateView::Scanning, words).state == ScanStateView::Scanning,
        scan(ScanStateView::Scanning, words).output == lex(words),
        lex(words).tokens.len() == words.len(),
        forall|i: int|
            0 <= i < words.len() ==> #[trigger] lex(words).tokens[i] == token_of(words[i]),
        lex(words).diagnostics == Seq::<DiagnosticView>::empty(),
    decreases words.len(),
{
    let end = scan(ScanStateView::Scanning, words);
    if words.len() == 0 {
        lemma_followed_by_empty(end.output);
    } else {
        let rest = words.drop_first();
        assert forall|i: int| 0 <= i < rest.len() implies is_well_formed(#[trigger] rest[i]) by {
            assert(rest[i] == words[i + 1]);
        }
        lemma_well_formed_word(words[0]);
        lemma_well_formed_words(rest);
        lemma_followed_by_empty(end.output);
        let tail = lex(rest);
        assert(end.output == Output::token(classify(words[0])->Ok_0, words[0]).followed_by(tail));
        assert forall|i: int| 0 <= i < words.len() implies #[trigger] lex(words).tokens[i]
            == token_of(words[i]) by {
            if i > 0 {
                assert(lex(words).tokens[i] == tail.tokens[i - 1]);
                assert(rest[i - 1] == words[i]);
            }
        }
        assert(lex(words).diagnostics =~= Seq::<DiagnosticView>::empty());
    }
}

/// A source of well-formed words with one space between two neighbours
/// yields as many tokens as it has words: the token of each word, in the
/// order of the words, and no diagnostic.
pub proof fn lemma_well_formed_source(words: Seq<Seq<char>>)
    requires
        words.len() >= 1,
        forall|i: int| 0 <= i < words.len() ==> is_well_formed(#[trigger] words[i]),
    ensures
        pieces(join(words, SPACE), SPACE) == words,
        lex_source(join(words, SPACE)).tokens.len() == words.len(),
        forall|i: int|
            0 <= i < words.len() ==> #[trigger] lex_source(join(words, SPACE)).tokens[i]
                == token_of(words[i]),
        lex_source(join(words, SPACE)).diagnostics == Seq::<DiagnosticView>::empty(),
{
    assert forall|k: int| 0 <= k < words.len() implies !(#[trigger] words[k]).contains(SPACE) by {
        lemma_well_formed_is_plain(words[k]);
        assert forall|i: int| 0 <= i < words[k].len() implies #[trigger] words[k][i] != SPACE by {
            assert(is_plain(words[k][i]));
        }
        lemma_holds(words[k], SPACE);
    }
    lemma_join_pieces(words, SPACE);
    lemma_well_formed_words(words);
}

/// The scan of words in a row is the scan of the first ones, and from where
/// it ends the scan of the others: what comes earlier in the source comes
/// earlier in the output.
pub proof fn lemma_scan_in_a_row(
    state: ScanStateView,
    first: Seq<Seq<char>>,
    others: Seq<Seq<char>>,
)
    ensures
        scan(state, first + others) == (Step {
            state: scan(scan(state, first).state, others).state,
            output: scan(state, first).output.followed_by(
                scan(scan(state, first).state, others).output,
            ),
        }),
    decreases first.len(),
{
    if first.len() == 0 {
        assert(first + others =~= others);
        lemma_followed_by_empty(scan(state, others).output);
    } else {
        let head = step(state, first[0]);
        assert((first + others)[0] == first[0]);
        assert((first + others).drop_first() =~= first.drop_first() + others);
        lemma_scan_in_a_row(head.state, first.drop_first(), others);
        lemma_followed_by_associative(
            head.output,
            scan(head.state, first.drop_first()).output,
            scan(scan(state, first).state, others).output,
        );
    }
}

/// The outcome of a scan depends on the source alone: two tokenizers made
/// for the same text, each scanned once, hold the same tokens and the same
/// diagnostics, those that the text yields.
pub proof fn lemma_same_source_same_outcome(
    source: Seq<char>,
    one: TokenizerView,
    other: TokenizerView,
)
    requires
        one == TokenizerView::fresh(source).scanned(),
        other == TokenizerView::fresh(source).scanned(),
    ensures
        one == other,
        one.tokens == lex_source(source).tokens,
        one.diagnostics == lex_source(source).diagnostics,
{
    assert(one.tokens =~= lex_source(source).tokens);
    assert(one.diagnostics =~= lex_source(source).diagnostics);
}

/// A token that is what its text says: the text is a well-formed word, and
/// the kind is the kind of that word.
pub open spec fn is_plain_token(token: TokenView) -> bool {
    is_well_formed(token.text) && token == token_of(token.text)
}

/// A token as a scan may yield it: a string literal, or a plain token.
pub open spec fn is_sound_token(token: TokenView) -> bool {
    token.kind == TokenType::Literal(Literal::Str) || is_plain_token(token)
}

/// An output whose tokens are all plain.
pub open spec fn is_plain_output(output: Output) -> bool {
    forall|j: int| 0 <= j < output.tokens.len() ==> is_plain_token(#[trigger] output.tokens[j])
}

/// An output whose tokens are all sound.
pub open spec fn is_sound_output(output: Output) -> bool {
    forall|j: int| 0 <= j < output.tokens.len() ==> is_sound_token(#[trigger] output.tokens[j])
}

/// An output in which no token holds a quote in its text.
pub open spec fn holds_no_quote(output: Output) -> bool {
    forall|j: int|
        0 <= j < output.tokens.len() ==> !(#[trigger] output.tokens[j]).text.contains(QUOTE)
}

/// What holds of the tokens of two outputs holds of the tokens of the one
/// followed by the other.
proof fn lemma_followed_by_keeps(first: Output, second: Output)
    ensures
        is_plain_output(first) && is_plain_output(second) ==> is_plain_output(
            first.followed_by(second),
        ),
        is_sound_output(first) && is_sound_output(second) ==> is_sound_output(
            first.followed_by(second),
        ),
        holds_no_quote(first) && holds_no_quote(second) ==> holds_no_quote(
            first.followed_by(second),
        ),
{
    let both = first.followed_by(second).tokens;
    assert forall|j: int| 0 <= j < both.len() implies #[trigger] both[j] == (if j
        < first.tokens.len() {
        first.tokens[j]
    } else {
        second.tokens[j - first.tokens.len()]
    }) by {}
}

/// Plain tokens hold no quote in their texts.
proof fn lemma_plain_output_holds_no_quote(output: Output)
    requires
        is_plain_output(output),
    ensures
        holds_no_quote(output),
{
    let tokens = output.tokens;
    assert forall|j: int| 0 <= j < tokens.len() implies !(#[trigger] tokens[j]).text.contains(
        QUOTE,
    ) by {
        let text = tokens[j].text;
        assert(is_plain_token(tokens[j]));
        lemma_well_formed_is_plain(text);
        assert forall|i: int| 0 <= i < text.len() implies #[trigger] text[i] != QUOTE by {
            assert(is_plain(text[i]));
        }
    }
}

/// Fragments yield plain tokens only, and each fragment yields one thing:
/// its token or its diagnostic.
pub proof fn lemma_fragments_yield_plain_tokens(frags: Seq<Seq<char>>)
    requires
        forall|k: int| 0 <= k < frags.len() ==> is_fragment(#[trigger] frags[k]),
    ensures
        is_plain_output(lex_fragments(frags)),
        lex_fragments(frags).len() == frags.len(),
    decreases frags.len(),
{
    if frags.len() > 0 {
        let rest = frags.drop_first();
        assert forall|k: int| 0 <= k < rest.len() implies is_fragment(#[trigger] rest[k]) by {
            assert(rest[k] == frags[k + 1]);
        }
        lemma_fragments_yield_plain_tokens(rest);
        assert(is_fragment(frags[0]));
        lemma_followed_by_keeps(lex_fragment(frags[0]), lex_fragments(rest));
    }
}

/// A word outside any string yields plain tokens only, and one thing for
/// each of its fragments: the token of the fragment or its diagnostic.
pub proof fn lemma_word_yields_plain_tokens(word: Seq<char>)
    ensures
        is_plain_output(lex_word(word)),
        lex_word(word).len() == fragments(word).len(),
{
    lemma_fragments(word);
    lemma_fragments_yield_plain_tokens(fragments(word));
}

/// The part of `word` that a move of the scan lexes as a word outside any
/// string: what stands before a quote that opens a string, what stands
/// behind a quote that closes one, the whole word outside a string where it
/// holds no quote, and nothing inside a string where it holds none.
pub open spec fn lexed_part(state: ScanStateView, word: Seq<char>) -> Seq<char> {
    match (state, find(word, is_char(QUOTE))) {
        (ScanStateView::Scanning, None) => word,
        (ScanStateView::Scanning, Some(at)) => word.take(at),
        (ScanStateView::InString(_), None) => Seq::empty(),
        (ScanStateView::InString(_), Some(at)) => word.skip(at + 1),
    }
}

/// What one move yields: the string literal that the word closes, if it
/// closes one, and what a part of the word yields as a word outside any
/// string.
pub proof fn lemma_step_output(state: ScanStateView, word: Seq<char>)
    ensures
        step(state, word).output == match (state, find(word, is_char(QUOTE))) {
            (ScanStateView::InString(buffer), Some(at)) => Output::token(
                TokenType::Literal(Literal::Str),
                buffer + seq![SPACE] + word.take(at),
            ).followed_by(lex_word(lexed_part(state, word))),
            _ => lex_word(lexed_part(state, word)),
        },
{
    lemma_fragments_of_word(Seq::<char>::empty());
}

/// Every token of a scan is a string literal or a plain token: apart from
/// string literals, the kind of a token is the kind of its text, and the
/// text is not empty and holds neither white space nor a quote.
pub proof fn lemma_tokens_are_sound(state: ScanStateView, words: Seq<Seq<char>>)
    ensures
        is_sound_output(scan(state, words).output),
    decreases words.len(),
{
    if words.len() > 0 {
        let head = step(state, words[0]);
        let rest = scan(head.state, words.drop_first());
        let part = lex_word(lexed_part(state, words[0]));
        lemma_tokens_are_sound(head.state, words.drop_first());
        lemma_step_output(state, words[0]);
        lemma_word_yields_plain_tokens(lexed_part(state, words[0]));
        if let (ScanStateView::InString(buffer), Some(at)) = (
            state,
            find(words[0], is_char(QUOTE)),
        ) {
            let text = buffer + seq![SPACE] + words[0].take(at);
            lemma_followed_by_keeps(Output::token(TokenType::Literal(Literal::Str), text), part);
        }
        lemma_followed_by_keeps(head.output, rest.output);
    }
}

/// Whether a move over `word` closes a string.
pub open spec fn closes_string(state: ScanStateView, word: Seq<char>) -> bool {
    state is InString && find(word, is_char(QUOTE)) is Some
}

/// How many things a scan of `words` from `state` has to yield: one for
/// each fragment that stands outside any string, and one for each string
/// that is closed.
pub open spec fn lexemes(state: ScanStateView, words: Seq<Seq<char>>) -> nat
    decreases words.len(),
{
    if words.len() == 0 {
        0
    } else {
        let here = fragments(lexed_part(state, words[0])).len() + if closes_string(
            state,
            words[0],
        ) {
            1nat
        } else {
            0nat
        };
        here + lexemes(step(state, words[0]).state, words.drop_first())
    }
}

/// A scan yields one thing for each fragment outside any string, its token
/// or its diagnostic, and one token for each string that is closed: nothing
/// is passed over in silence and nothing is yielded twice. No diagnostic
/// comes from a closed string.
pub proof fn lemma_one_output_a_fragment(state: ScanStateView, words: Seq<Seq<char>>)
    ensures
        scan(state, words).output.len() == lexemes(state, words),
        scan(state, words).output.diagnostics.len() <= lexemes(state, words),
    decreases words.len(),
{
    if words.len() > 0 {
        let head = step(state, words[0]);
        lemma_step_output(state, words[0]);
        lemma_word_yields_plain_tokens(lexed_part(state, words[0]));
        lemma_one_output_a_fragment(head.state, words.drop_first());
    }
}

/// A source yields one thing for each fragment outside any string and for
/// each closed string, and one diagnostic more for a string that is left
/// open.
pub proof fn lemma_outputs_of_a_source(words: Seq<Seq<char>>)
    ensures
        lex(words).len() == lexemes(ScanStateView::Scanning, words) + if scan(
            ScanStateView::Scanning,
            words,
        ).state is InString {
            1nat
        } else {
            0nat
        },
{
    lemma_one_output_a_fragment(ScanStateView::Scanning, words);
}

/// A text with one `c` at most.
pub open spec fn holds_at_most_one(s: Seq<char>, c: char) -> bool {
    forall|i: int, j: int| 0 <= i < j < s.len() && s[i] == c ==> s[j] != c
}

/// A state of the scan whose string, if it is inside one, holds no quote.
pub open spec fn is_quote_free(state: ScanStateView) -> bool {
    match state {
        ScanStateView::Scanning => true,
        ScanStateView::InString(buffer) => !buffer.contains(QUOTE),
    }
}

/// A string without a quote, a space and a text without a quote make a
/// string without a quote.
proof fn lemma_grown_string_holds_no_quote(buffer: Seq<char>, more: Seq<char>)
    requires
        !buffer.contains(QUOTE),
        !more.contains(QUOTE),
    ensures
        !(buffer + seq![SPACE] + more).contains(QUOTE),
{
    let grown = buffer + seq![SPACE] + more;
    assert forall|i: int| 0 <= i < grown.len() implies grown[i] != QUOTE by {
        if i < buffer.len() {
            assert(buffer.contains(grown[i]));
        } else if i > buffer.len() {
            assert(more.contains(more[i - buffer.len() - 1]));
        }
    }
}

/// One move over a word with one quote at most yields no token with a quote
/// in its text, and ends in a state with no quote in its string, provided
/// that it began in such a state.
proof fn lemma_step_keeps_quotes_out(state: ScanStateView, word: Seq<char>)
    requires
        is_quote_free(state),
        holds_at_most_one(word, QUOTE),
    ensures
        is_quote_free(step(state, word).state),
        holds_no_quote(step(state, word).output),
{
    let part = lex_word(lexed_part(state, word));
    lemma_step_output(state, word);
    lemma_word_yields_plain_tokens(lexed_part(state, word));
    lemma_plain_output_holds_no_quote(part);
    lemma_span(word, is_char(QUOTE));
    lemma_holds(word, QUOTE);
    match (state, find(word, is_char(QUOTE))) {
        (ScanStateView::Scanning, None) => {},
        (ScanStateView::Scanning, Some(at)) => {
            let seed = word.skip(at + 1);
            assert forall|i: int| 0 <= i < seed.len() implies #[trigger] seed[i] != QUOTE by {
                assert(word[at] == QUOTE);
                assert(seed[i] == word[at + 1 + i]);
            }
        },
        (ScanStateView::InString(buffer), None) => {
            lemma_grown_string_holds_no_quote(buffer, word);
        },
        (ScanStateView::InString(buffer), Some(at)) => {
            let before = word.take(at);
            assert forall|i: int| 0 <= i < before.len() implies #[trigger] before[i] != QUOTE by {
                assert(!is_char(QUOTE)(word[i]));
            }
            lemma_grown_string_holds_no_quote(buffer, before);
            let text = buffer + seq![SPACE] + before;
            lemma_followed_by_keeps(Output::token(TokenType::Literal(Literal::Str), text), part);
        },
    }
}

/// Scanning words with one quote each at most, from a state without a quote
/// in its string, yields no token with a quote in its text.
pub proof fn lemma_scan_keeps_quotes_out(state: ScanStateView, words: Seq<Seq<char>>)
    requires
        is_quote_free(state),
        forall|k: int| 0 <= k < words.len() ==> holds_at_most_one(#[trigger] words[k], QUOTE),
    ensures
        is_quote_free(scan(state, words).state),
        holds_no_quote(scan(state, words).output),
    decreases words.len(),
{
    if words.len() > 0 {
        let head = step(state, words[0]);
        let tail = words.drop_first();
        assert(holds_at_most_one(words[0], QUOTE));
        lemma_step_keeps_quotes_out(state, words[0]);
        assert forall|k: int| 0 <= k < tail.len() implies holds_at_most_one(
            #[trigger] tail[k],
            QUOTE,
        ) by {
            assert(tail[k] == words[k + 1]);
        }
        lemma_scan_keeps_quotes_out(head.state, tail);
        lemma_followed_by_keeps(head.output, scan(head.state, tail).output);
    }
}

/// The text of a token never holds a quote, in a source where no word holds
/// more than one. (A second quote in the word that opens a string is taken
/// into the string.)
pub proof fn lemma_token_texts_hold_no_quote(words: Seq<Seq<char>>)
    requires
        forall|k: int| 0 <= k < words.len() ==> holds_at_most_one(#[trigger] words[k], QUOTE),
    ensures
        holds_no_quote(lex(words)),
{
    let end = scan(ScanStateView::Scanning, words);
    lemma_scan_keeps_quotes_out(ScanStateView::Scanning, words);
    lemma_followed_by_keeps(end.output, at_end(end.state));
}

/// Every token that a source yields is a string literal or a plain token.
pub proof fn lemma_token_kinds_fit_their_texts(words: Seq<Seq<char>>)
    ensures
        is_sound_output(lex(words)),
{
    let end = scan(ScanStateView::Scanning, words);
    lemma_tokens_are_sound(ScanStateView::Scanning, words);
    lemma_followed_by_keeps(end.output, at_end(end.state));
}

/// The words that a phrase in quotes is cut into, but for the first: the
/// parts of the phrase, with the closing quote behind the last.
pub open spec fn closing(parts: Seq<Seq<char>>) -> Seq<Seq<char>>
    recommends
        parts.len() >= 1,
{
    parts.drop_last().push(parts.last() + seq![QUOTE])
}

/// The words that a phrase in quotes is cut into: its parts, with the
/// opening quote before the first and the closing quote behind the last.
pub open spec fn quoted(parts: Seq<Seq<char>>) -> Seq<Seq<char>>
    recommends
        parts.len() >= 2,
{
    seq![seq![QUOTE] + parts[0]] + closing(parts.drop_first())
}

/// Inside a string, parts without a quote up to a closing quote are added
/// to the string with one space before each, and the string becomes the one
/// token.
pub proof fn lemma_string_goes_on(buffer: Seq<char>, parts: Seq<Seq<char>>)
    requires
        parts.len() >= 1,
        forall|k: int| 0 <= k < parts.len() ==> !(#[trigger] parts[k]).contains(QUOTE),
    ensures
        scan(ScanStateView::InString(buffer), closing(parts)) == (Step {
            state: ScanStateView::Scanning,
            output: Output::token(
                TokenType::Literal(Literal::Str),
                buffer + seq![SPACE] + join(parts, SPACE),
            ),
        }),
    decreases parts.len(),
{
    let words = closing(parts);
    let state = ScanStateView::InString(buffer);
    let head = step(state, words[0]);
    assert(!parts[0].contains(QUOTE));
    lemma_holds(parts[0], QUOTE);
    if parts.len() == 1 {
        let word = parts[0] + seq![QUOTE];
        let at = parts[0].len() as int;
        assert(words[0] == word);
        assert forall|i: int| 0 <= i < at implies !is_char(QUOTE)(#[trigger] word[i]) by {
            assert(word[i] == parts[0][i]);
        }
        assert(is_char(QUOTE)(word[at]));
        lemma_span_is(word, is_char(QUOTE), at);
        assert(word.take(at) =~= parts[0]);
        assert(word.skip(at + 1) =~= Seq::<char>::empty());
        lemma_fragments_of_word(word.skip(at + 1));
        lemma_followed_by_empty(head.output);
        assert(words.drop_first() =~= Seq::<Seq<char>>::empty());
    } else {
        let tail = parts.drop_first();
        assert(words[0] == parts[0]);
        assert(words.drop_first() =~= closing(tail));
        assert forall|k: int| 0 <= k < tail.len() implies !(#[trigger] tail[k]).contains(QUOTE) by {
            assert(tail[k] == parts[k + 1]);
        }
        let grown = buffer + seq![SPACE] + parts[0];
        lemma_string_goes_on(grown, tail);
        assert(grown + seq![SPACE] + join(tail, SPACE) =~= buffer + seq![SPACE] + join(
            parts,
            SPACE,
        ));
        lemma_followed_by_empty(scan(head.state, words.drop_first()).output);
    }
}

/// A phrase in quotes that spans two words or more becomes one string
/// literal: its parts with one space between two neighbours, however many
/// they are.
pub proof fn lemma_quoted_phrase(parts: Seq<Seq<char>>)
    requires
        parts.len() >= 2,
        forall|k: int| 0 <= k < parts.len() ==> !(#[trigger] parts[k]).contains(QUOTE),
    ensures
        scan(ScanStateView::Scanning, quoted(parts)) == (Step {
            state: ScanStateView::Scanning,
            output: Output::token(TokenType::Literal(Literal::Str), join(parts, SPACE)),
        }),
        lex(quoted(parts)) == Output::token(TokenType::Literal(Literal::Str), join(parts, SPACE)),
{
    let words = quoted(parts);
    let word = seq![QUOTE] + parts[0];
    let tail = parts.drop_first();
    let head = step(ScanStateView::Scanning, word);
    assert(words[0] == word);
    assert(words.drop_first() =~= closing(tail));
    assert(is_char(QUOTE)(word[0]));
    lemma_span_is(word, is_char(QUOTE), 0);
    assert(word.take(0) =~= Seq::<char>::empty());
    lemma_fragments_of_word(word.take(0));
    assert(word.skip(1) =~= parts[0]);
    assert forall|k: int| 0 <= k < tail.len() implies !(#[trigger] tail[k]).contains(QUOTE) by {
        assert(tail[k] == parts[k + 1]);
    }
    lemma_string_goes_on(parts[0], tail);
    let token = Output::token(TokenType::Literal(Literal::Str), join(parts, SPACE));
    lemma_followed_by_empty(token);
}

/// Joining the words of a phrase with its closing quote gives the joined
/// phrase and the quote.
proof fn lemma_join_closing(parts: Seq<Seq<char>>)
    requires
        parts.len() >= 1,
    ensures
        join(closing(parts), SPACE) == join(parts, SPACE) + seq![QUOTE],
    decreases parts.len(),
{
    let words = closing(parts);
    if parts.len() > 1 {
        let tail = parts.drop_first();
        assert(words[0] == parts[0]);
        assert(words.drop_first() =~= closing(tail));
        lemma_join_closing(tail);
        assert(parts[0] + seq![SPACE] + (join(tail, SPACE) + seq![QUOTE]) =~= (parts[0]
            + seq![SPACE] + join(tail, SPACE)) + seq![QUOTE]);
    }
}

/// What no joined text holds, none of its parts holds.
proof fn lemma_parts_of_join(parts: Seq<Seq<char>>, sep: char, c: char)
    requires
        !join(parts, sep).contains(c),
    ensures
        forall|k: int| 0 <= k < parts.len() ==> !(#[trigger] parts[k]).contains(c),
    decreases parts.len(),
{
    let text = join(parts, sep);
    if parts.len() == 1 {
    } else if parts.len() > 1 {
        let tail = parts.drop_first();
        let rest = join(tail, sep);
        let offset = parts[0].len() + 1;
        assert forall|i: int| 0 <= i < rest.len() implies rest[i] != c by {
            assert(text[offset + i] == rest[i]);
            assert(text.contains(text[offset + i]));
        }
        lemma_parts_of_join(tail, sep, c);
        assert forall|k: int| 0 <= k < parts.len() implies !(#[trigger] parts[k]).contains(c) by {
            if k == 0 {
                assert forall|i: int| 0 <= i < parts[0].len() implies parts[0][i] != c by {
                    assert(text[i] == parts[0][i]);
                    assert(text.contains(text[i]));
                }
            } else {
                assert(parts[k] == tail[k - 1]);
            }
        }
    }
}

/// A text between quotes comes back as it stands, as one string literal,
/// where it holds a space and no quote. (Without a space the closing quote
/// stands in the word that opens the string, and is taken into the string.)
pub proof fn lemma_quoted_text(text: Seq<char>)
    requires
        text.contains(SPACE),
        !text.contains(QUOTE),
    ensures
        lex_source(seq![QUOTE] + text + seq![QUOTE]) == Output::token(
            TokenType::Literal(Literal::Str),
            text,
        ),
{
    let parts = pieces(text, SPACE);
    lemma_pieces(text, SPACE);
    lemma_holds(text, SPACE);
    lemma_pieces(text.skip(span(text, is_char(SPACE)) as int + 1), SPACE);
    assert(parts.len() >= 2);
    lemma_parts_of_join(parts, SPACE, QUOTE);
    let words = quoted(parts);
    let tail = parts.drop_first();
    lemma_join_closing(tail);
    assert(words.drop_first() =~= closing(tail));
    assert(join(words, SPACE) =~= seq![QUOTE] + text + seq![QUOTE]);
    assert forall|k: int| 0 <= k < words.len() implies !(#[trigger] words[k]).contains(SPACE) by {
        assert(!parts[k].contains(SPACE));
        lemma_holds(parts[k], SPACE);
        assert forall|i: int| 0 <= i < words[k].len() implies #[trigger] words[k][i] != SPACE by {
            if k == 0 {
                if i > 0 {
                    assert(words[k][i] == parts[0][i - 1]);
                }
            } else if k == words.len() - 1 {
                if i < parts[k].len() {
                    assert(words[k][i] == parts[k][i]);
                }
            } else {
                assert(words[k] == parts[k]);
            }
        }
    }
    lemma_join_pieces(words, SPACE);
    lemma_quoted_phrase(parts);
}

} // verus!
