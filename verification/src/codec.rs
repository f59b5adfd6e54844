//! Encoding text with a trained vocabulary, and decoding it again.

use crate::chunker::{split, split_spec};
use crate::chunks::{chunk_symbols, concat_chunks, to_symbols};
use crate::laws::{lemma_empty, lemma_round_trip};
use crate::merge::{merge_all, merge_chunks};
use crate::vocabulary::{expand_symbols, leaves_of, Vocabulary};
use vstd::prelude::*;
use vstd::utf8::*;

verus! {

/// What decoding returns in place of bytes that are not valid UTF-8.
pub const DECODE_ERROR: &'static str = "Decoding Error";

/// The chunks after the first `n` rules were replayed in order, each rule
/// with one pass over every chunk.
pub open spec fn apply_rules(chunks: Seq<Seq<u32>>, rules: Seq<((u32, u32), u32)>, n: int) -> Seq<
    Seq<u32>,
>
    decreases n,
{
    if n <= 0 {
        chunks
    } else {
        let rule = rules[n - 1];
        merge_all(apply_rules(chunks, rules, n - 1), rule.0.0, rule.0.1, rule.1)
    }
}

/// The chunks of `text` as they stand after all of `rules`.
pub open spec fn encoded_chunks(rules: Seq<((u32, u32), u32)>, text: Seq<char>) -> Seq<Seq<u32>> {
    apply_rules(chunk_symbols(split_spec(text)), rules, rules.len() as int)
}

/// The encoding of `text`: its chunks after all rules, side by side.
pub open spec fn encode_spec(rules: Seq<((u32, u32), u32)>, text: Seq<char>) -> Seq<u32> {
    encoded_chunks(rules, text).flatten()
}

/// Each symbol cut down to its low byte.
pub open spec fn low_bytes(symbols: Seq<u32>) -> Seq<u8> {
    Seq::new(symbols.len(), |i: int| (symbols[i] % 256) as u8)
}

/// The bytes that `tokens` unfold to under `map`.
pub open spec fn decode_bytes(map: Map<u32, (u32, u32)>, tokens: Seq<u32>) -> Seq<u8> {
    low_bytes(leaves_of(map, tokens))
}

/// The text that `tokens` decode to: their bytes read as UTF-8, or
/// [`DECODE_ERROR`] where the bytes are no valid UTF-8.
pub open spec fn decode_spec(map: Map<u32, (u32, u32)>, tokens: Seq<u32>) -> Seq<char> {
    if valid_utf8(decode_bytes(map, tokens)) {
        decode_utf8(decode_bytes(map, tokens))
    } else {
        DECODE_ERROR@
    }
}

/// The error of `String::from_utf8`; nothing is read from it.
#[verifier::external_type_specification]
#[verifier::external_body]
pub struct ExFromUtf8Error(std::string::FromUtf8Error);

/// `String::from_utf8` succeeds exactly on valid UTF-8, and then holds the
/// text that the bytes encode.
pub assume_specification[ String::from_utf8 ](bytes: Vec<u8>) -> (text: Result<
    String,
    std::string::FromUtf8Error,
>)
    ensures
        text is Ok <==> valid_utf8(bytes@),
        text is Ok ==> text->Ok_0@ == decode_utf8(bytes@),
;

/// Replays the merge rules of `vocab` in mint order, each with one pass
/// over every chunk, and returns the chunks side by side. No symbol of the
/// result stands for symbols of two chunks.
pub fn encode_chunks(vocab: &Vocabulary, chunks: Vec<Vec<u32>>) -> (tokens: Vec<u32>)
    ensures
        tokens@ == apply_rules(
            chunks.deep_view(),
            vocab.vocab_vec@,
            vocab.vocab_vec.len() as int,
        ).flatten(),
{
    let ghost start = chunks.deep_view();
    let mut chunks = chunks;
    let mut r: usize = 0;
    while r < vocab.vocab_vec.len()
        invariant
            r <= vocab.vocab_vec.len(),
            chunks.deep_view() == apply_rules(start, vocab.vocab_vec@, r as int),
        decreases vocab.vocab_vec.len() - r,
    {
        let rule = vocab.vocab_vec[r];
        merge_chunks(&mut chunks, rule.0.0, rule.0.1, rule.1);
        r = r + 1;
    }
    concat_chunks(&chunks)
}

/// Encodes `text`: splits it into chunks, takes the bytes of each chunk as
/// symbols, and replays the merge rules of `vocab` on them. `verbose` has
/// no bearing on the result.
#[allow(unused_variables)]
pub fn encode(vocab: &Vocabulary, text: &str, verbose: bool) -> (tokens: Vec<u32>)
    ensures
        tokens@ == encode_spec(vocab.vocab_vec@, text@),
        vocab.wf() ==> decode_spec(vocab.vocab_hash@, tokens@) == text@,
        text@.len() == 0 ==> tokens@.len() == 0,
{
    let split_text: Vec<String> = split(text);
    proof {
        if vocab.wf() {
            lemma_round_trip(vocab.vocab_vec@, text@);
        }
        if text@.len() == 0 {
            lemma_empty(vocab.vocab_vec@, vocab.vocab_hash@);
        }
    }
    encode_chunks(vocab, to_symbols(&split_text))
}

/// Decodes `tokens_vector`: unfolds every symbol that stands for a pair
/// until none is left, takes what remains as bytes, and reads them as
/// UTF-8. Bytes that are no valid UTF-8 give [`DECODE_ERROR`].
pub fn decode(vocab: &Vocabulary, tokens_vector: Vec<u32>) -> (text: String)
    ensures
        text@ == decode_spec(vocab.vocab_hash@, tokens_vector@),
{
    let unfolded = expand_symbols(&vocab.vocab_hash, tokens_vector.as_slice());
    let mut bytes: Vec<u8> = Vec::new();
    let mut i: usize = 0;
    while i < unfolded.len()
        invariant
            i <= unfolded.len(),
            bytes.len() == i,
            forall|j: int| 0 <= j < i ==> bytes[j] == (unfolded[j] % 256) as u8,
        decreases unfolded.len() - i,
    {
        bytes.push((unfolded[i] % 256) as u8);
        i = i + 1;
    }
    assert(bytes@ == decode_bytes(vocab.vocab_hash@, tokens_vector@));
    match String::from_utf8(bytes) {
        Ok(text) => text,
        Err(_) => DECODE_ERROR.to_owned(),
    }
}

} // verus!
