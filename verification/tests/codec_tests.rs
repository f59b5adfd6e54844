use bpe_tokenizer::codec::{decode, encode, encode_chunks, DECODE_ERROR};
use bpe_tokenizer::vocabulary::Vocabulary;
use std::collections::HashMap;

fn vocabulary_of(merges: &[((u32, u32), u32)]) -> Vocabulary {
    let mut vocab_hash = HashMap::new();
    for (pair, symbol) in merges {
        vocab_hash.insert(*symbol, *pair);
    }
    Vocabulary { vocab_hash, vocab_vec: merges.to_vec() }
}

#[test]
fn encode_of_empty_text_is_empty() {
    assert_eq!(encode(&vocabulary_of(&[]), "", false), Vec::<u32>::new());
    assert_eq!(encode(&vocabulary_of(&[((97, 97), 256)]), "", true), Vec::<u32>::new());
}

#[test]
fn decode_of_no_tokens_is_empty() {
    assert_eq!(decode(&vocabulary_of(&[]), vec![]), "");
    assert_eq!(decode(&vocabulary_of(&[((97, 97), 256)]), vec![]), "");
}

#[test]
fn encode_without_rules_gives_the_bytes() {
    assert_eq!(encode(&vocabulary_of(&[]), "hi \u{e9}", false), vec![104, 105, 32, 0xC3, 0xA9]);
}

#[test]
fn encode_replays_rules_in_mint_order() {
    // "aaab": (a, a) first gives 256 a b; then (256, a) gives 257 b
    let vocab = vocabulary_of(&[((97, 97), 256), ((256, 97), 257)]);
    assert_eq!(encode(&vocab, "aaab", false), vec![257, 98]);
    // the other order: (256, a) finds nothing yet
    let vocab = vocabulary_of(&[((256, 97), 257), ((97, 97), 256)]);
    assert_eq!(encode(&vocab, "aaab", false), vec![256, 97, 98]);
}

#[test]
fn encode_merges_a_pair_that_occurs_once() {
    let vocab = vocabulary_of(&[((97, 98), 256)]);
    assert_eq!(encode(&vocab, "ab", false), vec![256]);
}

#[test]
fn encode_does_not_merge_across_chunks() {
    // "ab ab" is cut into "ab" and " ab": the pair (b, space) straddles them
    let vocab = vocabulary_of(&[((98, 32), 256)]);
    assert_eq!(encode(&vocab, "ab ab", false), vec![97, 98, 32, 97, 98]);
    let vocab = vocabulary_of(&[((32, 97), 256)]);
    assert_eq!(encode(&vocab, "ab ab", false), vec![97, 98, 256, 98]);
}

#[test]
fn encode_is_the_same_whatever_verbose_says() {
    let vocab = vocabulary_of(&[((97, 98), 256), ((256, 256), 257)]);
    assert_eq!(encode(&vocab, "abab abab", true), encode(&vocab, "abab abab", false));
}

#[test]
fn encode_chunks_works_on_given_chunks() {
    let vocab = vocabulary_of(&[((1, 2), 256), ((256, 3), 257)]);
    let tokens = encode_chunks(&vocab, vec![vec![1, 2, 3], vec![1], vec![2, 3], vec![]]);
    assert_eq!(tokens, vec![257, 1, 2, 3]);
}

#[test]
fn decode_unfolds_nested_symbols() {
    let vocab = vocabulary_of(&[((97, 98), 256), ((256, 99), 257), ((257, 257), 258)]);
    assert_eq!(decode(&vocab, vec![258, 100, 256]), "abcabcdab");
}

#[test]
fn decode_gives_the_error_text_on_invalid_bytes() {
    let vocab = vocabulary_of(&[]);
    assert_eq!(decode(&vocab, vec![0xC3]), "Decoding Error");
    assert_eq!(decode(&vocab, vec![0xFF, 97]), DECODE_ERROR);
    assert_eq!(decode(&vocab, vec![0xC3, 0xA9]), "\u{e9}");
}

#[test]
fn decode_cuts_an_unknown_symbol_to_its_low_byte() {
    let vocab = vocabulary_of(&[((97, 98), 256)]);
    assert_eq!(decode(&vocab, vec![256 + 97 + 256, 256]), "aab");
}

#[test]
fn decode_does_not_follow_a_pair_that_is_not_smaller() {
    // 300 names itself: it is taken as it stands, 300 % 256 = 44 = ','
    let vocab = vocabulary_of(&[((300, 97), 300)]);
    assert_eq!(decode(&vocab, vec![300]), ",");
}

#[test]
fn decode_inverts_encode() {
    let vocab = vocabulary_of(&[((97, 97), 256), ((256, 97), 257), ((32, 119), 258)]);
    for text in ["", "aaab", "aaa aaaa  world", "na\u{ef}ve \u{1F44B}!\n\n", "I'm 1234\t x"] {
        let tokens = encode(&vocab, text, false);
        assert_eq!(decode(&vocab, tokens.clone()), text);
        // encoding what was decoded gives the same tokens again
        assert_eq!(encode(&vocab, &decode(&vocab, tokens.clone()), false), tokens);
    }
}
