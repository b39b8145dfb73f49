//! Cutting a text into words: at a separating character, or at white space.

use vstd::prelude::*;
use vstd::std_specs::iter::IteratorSpec;
use vstd::string::is_ascii;
use crate::chars::is_whitespace;

verus! {

/// The test "is the character `sep`".
pub open spec fn is_char(sep: char) -> spec_fn(char) -> bool {
    |c: char| c == sep
}

/// The test "is white space".
pub open spec fn whitespace() -> spec_fn(char) -> bool {
    |c: char| is_whitespace(c)
}

/// How many characters of `s` stand before the first one that `stop` holds
/// of; the length of `s` where it holds of none.
pub open spec fn span(s: Seq<char>, stop: spec_fn(char) -> bool) -> nat
    decreases s.len(),
{
    if s.len() == 0 || stop(s[0]) {
        0
    } else {
        1 + span(s.drop_first(), stop)
    }
}

/// The place of the first character of `s` that `stop` holds of, if any.
pub open spec fn find(s: Seq<char>, stop: spec_fn(char) -> bool) -> Option<int> {
    if span(s, stop) < s.len() {
        Some(span(s, stop) as int)
    } else {
        None
    }
}

/// The pieces that `s` falls into when it is cut at every `sep`. There is
/// one more of them than `s` holds separators, so an empty text has one
/// empty piece.
pub open spec fn pieces(s: Seq<char>, sep: char) -> Seq<Seq<char>>
    decreases s.len(),
{
    let n = span(s, is_char(sep)) as int;
    if n < s.len() {
        seq![s.take(n)] + pieces(s.skip(n + 1), sep)
    } else {
        seq![s]
    }
}

/// The pieces put together again, with one `sep` between two neighbours.
pub open spec fn join(parts: Seq<Seq<char>>, sep: char) -> Seq<char>
    decreases parts.len(),
{
    if parts.len() == 0 {
        Seq::empty()
    } else if parts.len() == 1 {
        parts[0]
    } else {
        parts[0] + seq![sep] + join(parts.drop_first(), sep)
    }
}

/// The longest runs of characters of `s` that hold no white space, from left
/// to right.
pub open spec fn fragments(s: Seq<char>) -> Seq<Seq<char>>
    decreases s.len(),
{
    if s.len() == 0 {
        Seq::empty()
    } else if is_whitespace(s[0]) {
        fragments(s.drop_first())
    } else {
        let n = span(s, whitespace()) as int;
        proof {
            lemma_span(s, whitespace());
        }
        seq![s.take(n)] + fragments(s.skip(n))
    }
}

/// What a fragment is: not empty, and free of white space.
pub open spec fn is_fragment(s: Seq<char>) -> bool {
    s.len() > 0 && forall|i: int| 0 <= i < s.len() ==> !is_whitespace(#[trigger] s[i])
}

/// `span` stops at the first character that `stop` holds of, and not before.
pub proof fn lemma_span(s: Seq<char>, stop: spec_fn(char) -> bool)
    ensures
        span(s, stop) <= s.len(),
        forall|i: int| 0 <= i < span(s, stop) ==> !stop(#[trigger] s[i]),
        span(s, stop) < s.len() ==> stop(s[span(s, stop) as int]),
    decreases s.len(),
{
    if s.len() == 0 || stop(s[0]) {
    } else {
        let t = s.drop_first();
        lemma_span(t, stop);
        assert forall|i: int| 0 <= i < span(s, stop) implies !stop(#[trigger] s[i]) by {
            if i > 0 {
                assert(s[i] == t[i - 1]);
            }
        }
        if span(s, stop) < s.len() {
            assert(s[span(s, stop) as int] == t[span(t, stop) as int]);
        }
    }
}

/// The place where `span` stops is the only one of which both hold: no
/// character before it stops the span, and the character at it does.
pub proof fn lemma_span_is(s: Seq<char>, stop: spec_fn(char) -> bool, n: int)
    requires
        0 <= n <= s.len(),
        forall|i: int| 0 <= i < n ==> !stop(#[trigger] s[i]),
        n < s.len() ==> stop(s[n]),
    ensures
        span(s, stop) == n,
{
    lemma_span(s, stop);
    let m = span(s, stop) as int;
    if m < n {
        assert(!stop(s[m]));
    } else if n < m {
        assert(stop(s[n]));
    }
}

/// A text holds `c` where it holds it at some place, and there `find`
/// finds it.
pub proof fn lemma_holds(s: Seq<char>, c: char)
    ensures
        !s.contains(c) <==> (forall|i: int| 0 <= i < s.len() ==> #[trigger] s[i] != c),
        !s.contains(c) <==> find(s, is_char(c)) is None,
{
    lemma_span(s, is_char(c));
    if find(s, is_char(c)) is Some {
        let at = span(s, is_char(c)) as int;
        assert(is_char(c)(s[at]));
        assert(s[at] == c);
    } else {
        assert forall|i: int| 0 <= i < s.len() implies #[trigger] s[i] != c by {
            assert(!is_char(c)(s[i]));
        }
    }
}

/// Cutting yields at least one piece, no piece holds the separator, and the
/// pieces joined by the separator are the text again.
pub proof fn lemma_pieces(s: Seq<char>, sep: char)
    ensures
        pieces(s, sep).len() >= 1,
        forall|k: int|
            0 <= k < pieces(s, sep).len() ==> !(#[trigger] pieces(s, sep)[k]).contains(sep),
        join(pieces(s, sep), sep) == s,
    decreases s.len(),
{
    let n = span(s, is_char(sep)) as int;
    lemma_span(s, is_char(sep));
    if n < s.len() {
        let head = s.take(n);
        let rest = s.skip(n + 1);
        let all = pieces(s, sep);
        lemma_pieces(rest, sep);
        assert(all.drop_first() =~= pieces(rest, sep));
        assert(head + seq![sep] + rest =~= s);
        assert forall|k: int| 0 <= k < all.len() implies !(#[trigger] all[k]).contains(sep) by {
            if k == 0 {
                assert forall|i: int| 0 <= i < head.len() implies head[i] != sep by {
                    assert(!is_char(sep)(s[i]));
                }
            } else {
                assert(all[k] == pieces(rest, sep)[k - 1]);
            }
        }
    } else {
        assert forall|i: int| 0 <= i < s.len() implies s[i] != sep by {
            assert(!is_char(sep)(s[i]));
        }
    }
}

/// Joining is undone by cutting: pieces that hold no separator, at least
/// one of them, are what their joined text is cut into.
pub proof fn lemma_join_pieces(parts: Seq<Seq<char>>, sep: char)
    requires
        parts.len() >= 1,
        forall|k: int| 0 <= k < parts.len() ==> !(#[trigger] parts[k]).contains(sep),
    ensures
        pieces(join(parts, sep), sep) == parts,
    decreases parts.len(),
{
    let text = join(parts, sep);
    let head = parts[0];
    assert(!head.contains(sep));
    if parts.len() == 1 {
        lemma_span_is(text, is_char(sep), text.len() as int);
        assert(seq![text] =~= parts);
    } else {
        let tail = parts.drop_first();
        assert forall|k: int| 0 <= k < tail.len() implies !(#[trigger] tail[k]).contains(sep) by {
            assert(tail[k] == parts[k + 1]);
        }
        lemma_join_pieces(tail, sep);
        let n = head.len() as int;
        assert(text[n] == sep);
        assert forall|i: int| 0 <= i < n implies !is_char(sep)(#[trigger] text[i]) by {
            assert(text[i] == head[i]);
        }
        lemma_span_is(text, is_char(sep), n);
        assert(text.take(n) =~= head);
        assert(text.skip(n + 1) =~= join(tail, sep));
        assert(seq![head] + tail =~= parts);
    }
}

/// No fragment is empty, and none holds white space.
pub proof fn lemma_fragments(s: Seq<char>)
    ensures
        forall|k: int| 0 <= k < fragments(s).len() ==> is_fragment(#[trigger] fragments(s)[k]),
    decreases s.len(),
{
    if s.len() == 0 {
    } else if is_whitespace(s[0]) {
        lemma_fragments(s.drop_first());
        assert(fragments(s) == fragments(s.drop_first()));
    } else {
        let n = span(s, whitespace()) as int;
        lemma_span(s, whitespace());
        lemma_fragments(s.skip(n));
        let all = fragments(s);
        assert forall|k: int| 0 <= k < all.len() implies is_fragment(#[trigger] all[k]) by {
            if k == 0 {
                let head = s.take(n);
                assert(all[0] == head);
                assert forall|i: int| 0 <= i < n implies !is_whitespace(#[trigger] head[i]) by {
                    assert(!whitespace()(s[i]));
                }
            } else {
                assert(all[k] == fragments(s.skip(n))[k - 1]);
            }
        }
    }
}

/// A text without white space is its own single fragment, unless it is
/// empty: then it has none.
pub proof fn lemma_fragments_of_word(s: Seq<char>)
    requires
        forall|i: int| 0 <= i < s.len() ==> !is_whitespace(#[trigger] s[i]),
    ensures
        fragments(s) == if s.len() == 0 {
            Seq::<Seq<char>>::empty()
        } else {
            seq![s]
        },
{
    if s.len() > 0 {
        lemma_run(s, 0, s.len() as int);
        assert(s.skip(0) =~= s);
        assert(s.subrange(0, s.len() as int) =~= s);
        assert(fragments(s.skip(s.len() as int)) =~= Seq::<Seq<char>>::empty());
    }
}

/// A white-space character between fragments belongs to none.
pub proof fn lemma_gap(s: Seq<char>, at: int)
    requires
        0 <= at < s.len(),
        is_whitespace(s[at]),
    ensures
        fragments(s.skip(at)) == fragments(s.skip(at + 1)),
{
    assert(s.skip(at).drop_first() =~= s.skip(at + 1));
}

/// A run without white space that ends at white space, or with the text, is
/// the first fragment of what begins with it.
pub proof fn lemma_run(s: Seq<char>, from: int, to: int)
    requires
        0 <= from < to <= s.len(),
        forall|i: int| from <= i < to ==> !is_whitespace(#[trigger] s[i]),
        to < s.len() ==> is_whitespace(s[to]),
    ensures
        fragments(s.skip(from)) == seq![s.subrange(from, to)] + fragments(s.skip(to)),
{
    let t = s.skip(from);
    assert forall|i: int| 0 <= i < to - from implies !whitespace()(#[trigger] t[i]) by {
        assert(t[i] == s[from + i]);
    }
    assert(to < s.len() ==> t[to - from] == s[to]);
    lemma_span_is(t, whitespace(), to - from);
    assert(t[0] == s[from]);
    assert(t.take(to - from) =~= s.subrange(from, to));
    assert(t.skip(to - from) =~= s.skip(to));
}

/// A run without `sep` that ends at a `sep` is the first piece of what
/// begins with it.
pub proof fn lemma_piece(s: Seq<char>, sep: char, from: int, to: int)
    requires
        0 <= from <= to < s.len(),
        forall|i: int| from <= i < to ==> #[trigger] s[i] != sep,
        s[to] == sep,
    ensures
        pieces(s.skip(from), sep) == seq![s.subrange(from, to)] + pieces(s.skip(to + 1), sep),
{
    let t = s.skip(from);
    assert forall|i: int| 0 <= i < to - from implies !is_char(sep)(#[trigger] t[i]) by {
        assert(t[i] == s[from + i]);
    }
    assert(t[to - from] == s[to]);
    lemma_span_is(t, is_char(sep), to - from);
    assert(t.take(to - from) =~= s.subrange(from, to));
    assert(t.skip(to - from + 1) =~= s.skip(to + 1));
}

/// A text without `sep` is its own single piece.
pub proof fn lemma_last_piece(s: Seq<char>, sep: char)
    requires
        forall|i: int| 0 <= i < s.len() ==> #[trigger] s[i] != sep,
    ensures
        pieces(s, sep) == seq![s],
{
    assert forall|i: int| 0 <= i < s.len() implies !is_char(sep)(#[trigger] s[i]) by {}
    lemma_span_is(s, is_char(sep), s.len() as int);
}

/// The characters of `s` from place `from` up to place `to`. With `ascii`
/// set the text is known to be ASCII, and the part is had without a walk
/// through what stands before it.
fn part<'a>(s: &'a str, ascii: bool, from: usize, to: usize) -> (r: &'a str)
    requires
        ascii ==> is_ascii(s),
        from <= to <= s@.len(),
    ensures
        r@ == s@.subrange(from as int, to as int),
{
    if ascii {
        s.substring_ascii(from, to)
    } else {
        s.substring_char(from, to)
    }
}

/// Finds the first `c` in `s`, counted in characters.
pub fn find_char(s: &str, c: char) -> (r: Option<usize>)
    ensures
        match r {
            Some(p) => find(s@, is_char(c)) == Some(p as int),
            None => find(s@, is_char(c)) is None,
        },
{
    let n = s.unicode_len();
    let mut i: usize = 0;
    for x in it: s.chars()
        invariant
            it.seq() == s@,
            i == it.index(),
            n == s@.len(),
            forall|k: int| 0 <= k < i ==> !is_char(c)(#[trigger] s@[k]),
    {
        if x == c {
            proof {
                lemma_span_is(s@, is_char(c), i as int);
            }
            return Some(i);
        }
        i += 1;
    }
    proof {
        lemma_span_is(s@, is_char(c), n as int);
    }
    None
}

/// Cuts `input` at every `sep`. On ASCII text this takes time in proportion
/// to the length of `input`; on other text each piece costs a walk from the
/// beginning of `input`.
pub fn split(input: &str, sep: char) -> (words: Vec<String>)
    ensures
        words.deep_view() == pieces(input@, sep),
{
    let ascii = input.is_ascii();
    let n = input.unicode_len();
    let mut words: Vec<String> = Vec::new();
    let mut start: usize = 0;
    let mut i: usize = 0;
    assert(input@.skip(0) =~= input@);
    assert(words.deep_view() + pieces(input@, sep) =~= pieces(input@, sep));
    for c in it: input.chars()
        invariant
            it.seq() == input@,
            i == it.index(),
            n == input@.len(),
            ascii ==> is_ascii(input),
            start <= i,
            forall|k: int| start <= k < i ==> #[trigger] input@[k] != sep,
            words.deep_view() + pieces(input@.skip(start as int), sep) == pieces(input@, sep),
    {
        if c == sep {
            let piece = part(input, ascii, start, i);
            let ghost before = words.deep_view();
            words.push(piece.to_owned());
            proof {
                lemma_piece(input@, sep, start as int, i as int);
                assert(words.deep_view() =~= before.push(piece@));
                let rest = pieces(input@.skip(i + 1), sep);
                assert(before.push(piece@) + rest =~= before + (seq![piece@] + rest));
            }
            start = i + 1;
        }
        i += 1;
    }
    let piece = part(input, ascii, start, n);
    let ghost before = words.deep_view();
    words.push(piece.to_owned());
    proof {
        let rest = input@.skip(start as int);
        assert forall|k: int| 0 <= k < rest.len() implies #[trigger] rest[k] != sep by {
            assert(rest[k] == input@[start + k]);
        }
        lemma_last_piece(rest, sep);
        assert(piece@ =~= rest);
        assert(words.deep_view() =~= before.push(piece@));
        assert(before.push(piece@) =~= before + seq![rest]);
    }
    words
}

/// Cuts `word` at white space and leaves the empty pieces out.
pub fn split_whitespace<'a>(word: &'a str) -> (frags: Vec<&'a str>)
    ensures
        frags.deep_view() == fragments(word@),
{
    let ascii = word.is_ascii();
    let n = word.unicode_len();
    let mut frags: Vec<&'a str> = Vec::new();
    let mut start: usize = 0;
    let mut i: usize = 0;
    assert(word@.skip(0) =~= word@);
    assert(frags.deep_view() + fragments(word@) =~= fragments(word@));
    for c in it: word.chars()
        invariant
            it.seq() == word@,
            i == it.index(),
            n == word@.len(),
            ascii ==> is_ascii(word),
            start <= i,
            forall|k: int| start <= k < i ==> !is_whitespace(#[trigger] word@[k]),
            frags.deep_view() + fragments(word@.skip(start as int)) == fragments(word@),
    {
        if is_whitespace(c) {
            if start < i {
                let frag = part(word, ascii, start, i);
                let ghost before = frags.deep_view();
                frags.push(frag);
                proof {
                    lemma_run(word@, start as int, i as int);
                    assert(frags.deep_view() =~= before.push(frag@));
                    let rest = fragments(word@.skip(i as int));
                    assert(before.push(frag@) + rest =~= before + (seq![frag@] + rest));
                }
            }
            proof {
                lemma_gap(word@, i as int);
            }
            start = i + 1;
        }
        i += 1;
    }
    if start < n {
        let frag = part(word, ascii, start, n);
        let ghost before = frags.deep_view();
        frags.push(frag);
        proof {
            lemma_run(word@, start as int, n as int);
            assert(frags.deep_view() =~= before.push(frag@));
            let rest = fragments(word@.skip(n as int));
            assert(before.push(frag@) + rest =~= before + (seq![frag@] + rest));
        }
    }
    assert(fragments(word@.skip(n as int)).len() == 0);
    assert(frags.deep_view() + fragments(word@.skip(n as int)) =~= frags.deep_view());
    frags
}

/// Whether two texts are the same, character for character.
pub fn same_text(a: &str, b: &str) -> (r: bool)
    ensures
        r == (a@ == b@),
{
    let mut left = a.chars();
    let mut right = b.chars();
    let ghost mut at: int = 0;
    assert(a@.skip(0) =~= a@);
    assert(b@.skip(0) =~= b@);
    loop
        invariant
            0 <= at <= a@.len(),
            at <= b@.len(),
            left.remaining() == a@.skip(at),
            right.remaining() == b@.skip(at),
            a@.take(at) == b@.take(at),
        decreases a@.len() - at,
    {
        let x = left.next();
        let y = right.next();
        match (x, y) {
            (Some(p), Some(q)) => {
                if p != q {
                    assert(a@[at] != b@[at]);
                    return false;
                }
                proof {
                    assert(a@.skip(at).drop_first() =~= a@.skip(at + 1));
                    assert(b@.skip(at).drop_first() =~= b@.skip(at + 1));
                    assert(a@.take(at + 1) =~= a@.take(at).push(p));
                    assert(b@.take(at + 1) =~= b@.take(at).push(q));
                    at = at + 1;
                }
            },
            (None, None) => {
                assert(a@.take(at) =~= a@);
                assert(b@.take(at) =~= b@);
                return true;
            },
            _ => {
                assert(a@.len() != b@.len());
                return false;
            },
        }
    }
}

} // verus!
