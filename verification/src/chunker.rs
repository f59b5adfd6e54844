//! Pre-tokenization: cutting text into chunks that merges never cross.

use crate::unicode::{lemma_boundary_in_prefix, lemma_decode_flatten, lemma_valid_between};
use vstd::prelude::*;
use vstd::seq_lib::lemma_flatten_concat;
use vstd::string::*;
use vstd::utf8::*;

verus! {

/// The boundary rules, in priority order: contraction suffixes, words with
/// at most one leading non-letter, runs of up to three digits, punctuation
/// runs with an optional leading space and trailing newlines, whitespace
/// that ends in a newline, and any other whitespace run.
pub const CHUNK_PATTERN: &'static str =
    r"(?i:'(?:[sdmt]|ll|ve|re))|[^\r\n\p{L}\p{N}]\p{L}+|^\p{L}+|\p{N}{1,3}| ?[^\s\p{L}\p{N}]+[\r\n]*|\s*[\r\n]|\s+";

/// The byte spans of the successive matches of `pattern` in `text`, as the
/// regex engine finds them; `None` where `pattern` does not compile.
pub uninterp spec fn regex_spans(pattern: Seq<char>, text: Seq<char>) -> Option<
    Seq<(usize, usize)>,
>;

/// Calls `regex::Regex::new` on `pattern` and `Regex::find_iter` on `text`,
/// and hands out the `start()` and `end()` of each match in the order found.
/// The contract only names that result: nothing is claimed of the spans.
#[verifier::external_body]
fn find_spans(pattern: &str, text: &str) -> (found: Option<Vec<(usize, usize)>>)
    ensures
        found is Some <==> regex_spans(pattern@, text@) is Some,
        found is Some ==> found->0@ == regex_spans(pattern@, text@)->0,
{
    match regex::Regex::new(pattern) {
        Ok(re) => Some(re.find_iter(text).map(|m| (m.start(), m.end())).collect()),
        Err(_) => None,
    }
}

/// Whether `span` can be cut out of `bytes` after position `from`: it is not
/// empty, lies at or after `from`, and both its ends are character boundaries.
pub open spec fn span_usable(bytes: Seq<u8>, from: int, span: (usize, usize)) -> bool {
    &&& from <= span.0 < span.1 <= bytes.len()
    &&& is_char_boundary(bytes, span.0 as int)
    &&& is_char_boundary(bytes, span.1 as int)
}

/// The text between `from` and `to`, as a piece of its own if there is any.
pub open spec fn gap(bytes: Seq<u8>, from: int, to: int) -> Seq<Seq<u8>> {
    if from < to {
        seq![bytes.subrange(from, to)]
    } else {
        Seq::empty()
    }
}

/// The pieces of `bytes` from `from` on: each usable span in turn, the
/// text before it that no span covers, and whatever is left at the end.
/// Spans that are not usable are passed over.
pub open spec fn cut_from(bytes: Seq<u8>, from: int, spans: Seq<(usize, usize)>) -> Seq<Seq<u8>>
    decreases spans.len(),
{
    if spans.len() == 0 {
        gap(bytes, from, bytes.len() as int)
    } else if span_usable(bytes, from, spans[0]) {
        gap(bytes, from, spans[0].0 as int) + seq![
            bytes.subrange(spans[0].0 as int, spans[0].1 as int),
        ] + cut_from(bytes, spans[0].1 as int, spans.drop_first())
    } else {
        cut_from(bytes, from, spans.drop_first())
    }
}

/// Each piece read as UTF-8.
pub open spec fn decoded(pieces: Seq<Seq<u8>>) -> Seq<Seq<char>> {
    pieces.map_values(|piece: Seq<u8>| decode_utf8(piece))
}

/// The chunks that `spans` cut `text` into, each decoded back to characters.
pub open spec fn cut_text(text: Seq<char>, spans: Seq<(usize, usize)>) -> Seq<Seq<char>> {
    decoded(cut_from(encode_utf8(text), 0, spans))
}

/// The slice of `text` between two of its character boundaries.
fn slice_between<'a>(text: &'a str, from: usize, to: usize) -> (piece: &'a str)
    requires
        from <= to <= text.spec_bytes().len(),
        is_char_boundary(text.spec_bytes(), from as int),
        is_char_boundary(text.spec_bytes(), to as int),
    ensures
        piece.spec_bytes() == text.spec_bytes().subrange(from as int, to as int),
        piece@ == decode_utf8(text.spec_bytes().subrange(from as int, to as int)),
{
    broadcast use {encode_utf8_valid_utf8, encode_utf8_decode_utf8};

    let (head, _) = text.split_at(to);
    proof {
        lemma_boundary_in_prefix(text.spec_bytes(), from as int, to as int);
    }
    let (_, piece) = head.split_at(from);
    piece
}

/// Cuts `text` at `spans`, taken as byte offsets: the result holds, in
/// order, every usable span and every stretch of text between them.
pub fn cut_at_spans(text: &str, spans: &Vec<(usize, usize)>) -> (pieces: Vec<String>)
    ensures
        pieces.deep_view() == cut_text(text@, spans@),
{
    broadcast use {encode_utf8_valid_utf8, is_char_boundary_start_end_of_seq};

    let ghost bytes = text.spec_bytes();
    let n: usize = text.as_bytes().len();
    let mut pieces: Vec<String> = Vec::new();
    let mut from: usize = 0;
    let mut k: usize = 0;
    proof {
        assert(spans@.subrange(0, spans.len() as int) == spans@);
    }
    while k < spans.len()
        invariant
            bytes == text.spec_bytes(),
            n == bytes.len(),
            k <= spans.len(),
            from <= n,
            is_char_boundary(bytes, from as int),
            cut_text(text@, spans@) == pieces.deep_view() + decoded(
                cut_from(bytes, from as int, spans@.subrange(k as int, spans.len() as int)),
            ),
        decreases spans.len() - k,
    {
        let start: usize = spans[k].0;
        let end: usize = spans[k].1;
        proof {
            let rest = spans@.subrange(k as int, spans.len() as int);
            assert(rest.drop_first() == spans@.subrange(k + 1, spans.len() as int));
        }
        if from <= start && start < end && end <= n && text.is_char_boundary(start)
            && text.is_char_boundary(end) {
            if from < start {
                pieces.push(slice_between(text, from, start).to_owned());
            }
            pieces.push(slice_between(text, start, end).to_owned());
            from = end;
        }
        k = k + 1;
    }
    if from < n {
        pieces.push(slice_between(text, from, n).to_owned());
    }
    pieces
}

/// Whether `c` has the Unicode property `White_Space`, as
/// `char::is_whitespace` reports it.
pub uninterp spec fn is_white_space(c: char) -> bool;

/// `char::is_whitespace` returns whether the character has the Unicode
/// property `White_Space`; the contract gives that answer a name.
pub assume_specification[ char::is_whitespace ](c: char) -> (white: bool)
    ensures
        white == is_white_space(c),
;

/// A token made of spaces and tabs only.
pub open spec fn is_blank(token: Seq<char>) -> bool {
    forall|i: int| 0 <= i < token.len() ==> token[i] == ' ' || token[i] == '\t'
}

/// A token whose first character is not whitespace.
pub open spec fn starts_solid(token: Seq<char>) -> bool {
    token.len() > 0 && !is_white_space(token[0])
}

/// Of each token, whether it starts solid.
pub open spec fn solid_starts(tokens: Seq<Seq<char>>) -> Seq<bool> {
    Seq::new(tokens.len(), |i: int| starts_solid(tokens[i]))
}

/// Whether token `i` hands its last character to the token after it: it is
/// blank, longer than one character, and followed by a token that `solid`
/// marks.
pub open spec fn gives_up_last(tokens: Seq<Seq<char>>, solid: Seq<bool>, i: int) -> bool {
    &&& 0 <= i
    &&& i + 1 < tokens.len()
    &&& is_blank(tokens[i])
    &&& tokens[i].len() > 1
    &&& i + 1 < solid.len()
    &&& solid[i + 1]
}

/// Token `i` after the shift: without its last character where it hands that
/// on, and behind the last character of token `i - 1` where that one hands
/// it on.
pub open spec fn shifted_token(tokens: Seq<Seq<char>>, solid: Seq<bool>, i: int) -> Seq<char> {
    let body = if gives_up_last(tokens, solid, i) {
        tokens[i].drop_last()
    } else {
        tokens[i]
    };
    if gives_up_last(tokens, solid, i - 1) {
        seq![tokens[i - 1].last()] + body
    } else {
        body
    }
}

/// The tokens after every blank run in front of a marked token has handed
/// its last character to that token.
pub open spec fn shift_blanks_spec(tokens: Seq<Seq<char>>, solid: Seq<bool>) -> Seq<Seq<char>> {
    Seq::new(tokens.len(), |i: int| shifted_token(tokens, solid, i))
}

/// The tokens after every blank run in front of a solid token has handed its
/// last character to that token.
pub open spec fn adjust_whitespace_spec(tokens: Seq<Seq<char>>) -> Seq<Seq<char>> {
    shift_blanks_spec(tokens, solid_starts(tokens))
}

/// Whether `token` is made of spaces and tabs only.
fn is_blank_str(token: &str) -> (blank: bool)
    ensures
        blank == is_blank(token@),
        blank ==> is_ascii(token),
{
    broadcast use is_ascii_spec_bytes;

    if !token.is_ascii() {
        return false;
    }
    let bytes = token.as_bytes();
    let mut i: usize = 0;
    while i < bytes.len()
        invariant
            is_ascii(token),
            bytes@ == token.spec_bytes(),
            i <= bytes.len(),
            forall|j: int| 0 <= j < i ==> token@[j] == ' ' || token@[j] == '\t',
        decreases bytes.len() - i,
    {
        let b: u8 = bytes[i];
        if b != 0x20 && b != 0x09 {
            return false;
        }
        i = i + 1;
    }
    true
}

/// Whether the first character of `token` is something other than whitespace.
fn starts_solid_str(token: &str) -> (solid: bool)
    ensures
        solid == starts_solid(token@),
{
    if token.is_empty() {
        false
    } else {
        !token.get_char(0).is_whitespace()
    }
}

/// Says of each token whether it starts solid.
pub fn solid_starts_of(tokens: &Vec<String>) -> (solid: Vec<bool>)
    ensures
        solid@ == solid_starts(tokens.deep_view()),
{
    let mut solid: Vec<bool> = Vec::new();
    let mut i: usize = 0;
    while i < tokens.len()
        invariant
            i <= tokens.len(),
            solid.len() == i,
            forall|j: int| 0 <= j < i ==> solid[j] == starts_solid(tokens[j]@),
        decreases tokens.len() - i,
    {
        solid.push(starts_solid_str(tokens[i].as_str()));
        i = i + 1;
    }
    assert(solid@ == solid_starts(tokens.deep_view()));
    solid
}

/// Moves the last character of each blank run that stands in front of a
/// token that `solid` marks to the front of that token. A token without a
/// mark in `solid` counts as not marked.
pub fn shift_blanks(tokens: Vec<String>, solid: &Vec<bool>) -> (shifted: Vec<String>)
    ensures
        shifted.deep_view() == shift_blanks_spec(tokens.deep_view(), solid@),
{
    broadcast use is_ascii_spec_bytes;

    let ghost all = tokens.deep_view();
    let n: usize = tokens.len();
    let mut shifted: Vec<String> = Vec::new();
    let mut carried: bool = false;
    let mut i: usize = 0;
    while i < n
        invariant
            all == tokens.deep_view(),
            n == tokens.len(),
            i <= n,
            carried == gives_up_last(all, solid@, i - 1),
            shifted.deep_view() == Seq::new(i as nat, |j: int| shifted_token(all, solid@, j)),
        decreases n - i,
    {
        let token: &str = tokens[i].as_str();
        let ghost before = shifted.deep_view();
        let gives: bool = i + 1 < n && i + 1 < solid.len() && solid[i + 1] && is_blank_str(token)
            && token.as_bytes().len() > 1;
        let body: &str = if gives {
            token.substring_ascii(0, token.as_bytes().len() - 1)
        } else {
            token
        };
        let piece: String = if carried {
            let prev: &str = tokens[i - 1].as_str();
            assert(is_ascii(prev));
            let len: usize = prev.as_bytes().len();
            let mut piece: String = prev.substring_ascii(len - 1, len).to_owned();
            piece.append(body);
            piece
        } else {
            body.to_owned()
        };
        assert(piece@ == shifted_token(all, solid@, i as int));
        shifted.push(piece);
        assert(shifted.deep_view() == before.push(shifted_token(all, solid@, i as int)));
        carried = gives;
        i = i + 1;
    }
    shifted
}

/// Moves the last character of each blank run that stands in front of a
/// solid token to the front of that token, so that a word keeps the one
/// space before it and the run keeps the rest.
pub fn adjust_whitespace(tokens: Vec<String>) -> (adjusted: Vec<String>)
    ensures
        adjusted.deep_view() == adjust_whitespace_spec(tokens.deep_view()),
{
    let solid = solid_starts_of(&tokens);
    shift_blanks(tokens, &solid)
}

/// The spans at which text is cut: the matches of [`CHUNK_PATTERN`], or
/// none where the pattern is refused.
pub open spec fn chunk_spans(text: Seq<char>) -> Seq<(usize, usize)> {
    match regex_spans(CHUNK_PATTERN@, text) {
        Some(spans) => spans,
        None => Seq::empty(),
    }
}

/// The chunks of `text`: its cut at the pattern's matches, with the
/// whitespace in front of solid tokens adjusted.
pub open spec fn split_spec(text: Seq<char>) -> Seq<Seq<char>> {
    adjust_whitespace_spec(cut_text(text, chunk_spans(text)))
}

/// The pieces cut from a text are not empty, each is a valid encoding, and
/// side by side they are the text from `from` on.
pub proof fn lemma_cut_covers(bytes: Seq<u8>, from: int, spans: Seq<(usize, usize)>)
    requires
        valid_utf8(bytes),
        0 <= from <= bytes.len(),
        is_char_boundary(bytes, from),
    ensures
        cut_from(bytes, from, spans).flatten() == bytes.subrange(from, bytes.len() as int),
        forall|i: int|
            0 <= i < cut_from(bytes, from, spans).len() ==> {
                let piece = #[trigger] cut_from(bytes, from, spans)[i];
                piece.len() > 0 && valid_utf8(piece)
            },
    decreases spans.len(),
{
    broadcast use {Seq::lemma_flatten_push, Seq::lemma_flatten_singleton};

    let end = bytes.len() as int;
    is_char_boundary_start_end_of_seq(bytes);
    if spans.len() == 0 {
        lemma_valid_between(bytes, from, end);
    } else if span_usable(bytes, from, spans[0]) {
        let start = spans[0].0 as int;
        let stop = spans[0].1 as int;
        let head = gap(bytes, from, start);
        let rest = cut_from(bytes, stop, spans.drop_first());
        lemma_cut_covers(bytes, stop, spans.drop_first());
        lemma_valid_between(bytes, from, start);
        lemma_valid_between(bytes, start, stop);
        lemma_flatten_concat(head + seq![bytes.subrange(start, stop)], rest);
        lemma_flatten_concat(head, seq![bytes.subrange(start, stop)]);
    } else {
        lemma_cut_covers(bytes, from, spans.drop_first());
    }
}

/// Cutting loses nothing: the chunks side by side are the text, and none
/// of them is empty.
pub proof fn lemma_cut_text_lossless(text: Seq<char>, spans: Seq<(usize, usize)>)
    ensures
        cut_text(text, spans).flatten() == text,
        forall|i: int| 0 <= i < cut_text(text, spans).len() ==> cut_text(text, spans)[i].len() > 0,
{
    let bytes = encode_utf8(text);
    let pieces = cut_from(bytes, 0, spans);
    encode_utf8_valid_utf8(text);
    lemma_cut_covers(bytes, 0, spans);
    lemma_decode_flatten(pieces);
    assert(bytes.subrange(0, bytes.len() as int) == bytes);
    encode_utf8_decode_utf8(text);
}

/// What token `i` hands on: its last character, or nothing.
pub open spec fn handed_on(tokens: Seq<Seq<char>>, solid: Seq<bool>, i: int) -> Seq<char> {
    if gives_up_last(tokens, solid, i) {
        seq![tokens[i].last()]
    } else {
        Seq::empty()
    }
}

/// The first `n` tokens read the same before and after the shift, but for
/// the character that the last of them hands on.
pub proof fn lemma_shift_prefix(tokens: Seq<Seq<char>>, solid: Seq<bool>, n: int)
    requires
        0 <= n <= tokens.len(),
    ensures
        shift_blanks_spec(tokens, solid).take(n).flatten() + handed_on(tokens, solid, n - 1)
            == tokens.take(n).flatten(),
    decreases n,
{
    broadcast use {Seq::lemma_flatten_push, Seq::lemma_flatten_singleton};

    let shifted = shift_blanks_spec(tokens, solid);
    if n > 0 {
        lemma_shift_prefix(tokens, solid, n - 1);
        assert(shifted.take(n) == shifted.take(n - 1).push(shifted[n - 1]));
        assert(tokens.take(n) == tokens.take(n - 1).push(tokens[n - 1]));
    }
}

/// The shift moves characters between neighbours and loses none: the tokens
/// side by side read as before, and none becomes empty.
pub proof fn lemma_shift_lossless(tokens: Seq<Seq<char>>, solid: Seq<bool>)
    ensures
        shift_blanks_spec(tokens, solid).flatten() == tokens.flatten(),
        (forall|i: int| 0 <= i < tokens.len() ==> tokens[i].len() > 0) ==> forall|i: int|
            0 <= i < tokens.len() ==> shift_blanks_spec(tokens, solid)[i].len() > 0,
{
    let shifted = shift_blanks_spec(tokens, solid);
    lemma_shift_prefix(tokens, solid, tokens.len() as int);
    assert(shifted.take(tokens.len() as int) == shifted);
    assert(tokens.take(tokens.len() as int) == tokens);
}

/// Chunking loses nothing: for every text, the chunks side by side are the
/// text again, and no chunk is empty; so the empty text has no chunk.
pub proof fn lemma_split_lossless(text: Seq<char>)
    ensures
        split_spec(text).flatten() == text,
        forall|i: int| 0 <= i < split_spec(text).len() ==> split_spec(text)[i].len() > 0,
        text.len() == 0 ==> split_spec(text).len() == 0,
{
    let tokens = cut_text(text, chunk_spans(text));
    lemma_cut_text_lossless(text, chunk_spans(text));
    lemma_shift_lossless(tokens, solid_starts(tokens));
}

/// Splits `text` into its chunks, in order. The chunks side by side are
/// `text`, and none is empty, so that the empty text has no chunk.
pub fn split(text: &str) -> (chunks: Vec<String>)
    ensures
        chunks.deep_view() == split_spec(text@),
        chunks.deep_view().flatten() == text@,
        forall|i: int| 0 <= i < chunks.len() ==> chunks[i]@.len() > 0,
        text@.len() == 0 ==> chunks.len() == 0,
{
    let spans: Vec<(usize, usize)> = match find_spans(CHUNK_PATTERN, text) {
        Some(spans) => spans,
        None => Vec::new(),
    };
    let tokens = cut_at_spans(text, &spans);
    let chunks = adjust_whitespace(tokens);
    proof {
        lemma_split_lossless(text@);
        assert forall|i: int| 0 <= i < chunks.len() implies chunks[i]@.len() > 0 by {
            assert(chunks.deep_view()[i] == chunks[i]@);
        }
    }
    chunks
}

} // verus!
