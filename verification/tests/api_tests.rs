use bpe_tokenizer::{decode, encode, execute, pair_counts, split, train_tokenizer};
use bpe_tokenizer::{PairCounts, Vocabulary};
use std::collections::HashMap;

#[test]
fn train_encode_decode_from_the_crate_root() {
    let corpus = "one fish two fish red fish blue fish";
    let vocab: Vocabulary = execute(corpus, false);
    assert_eq!(vocab.vocab_vec, train_tokenizer(corpus, 512, false).vocab_vec);
    let tokens = encode(&vocab, "two red fish", false);
    assert!(tokens.len() < "two red fish".len());
    assert_eq!(decode(&vocab, tokens), "two red fish");
}

#[test]
fn classic_example_end_to_end() {
    let text = "aaabdaaabac";
    let vocab = train_tokenizer(text, 258, false);
    assert_eq!(vocab.vocab_vec[0], ((97, 97), 256));
    // aaabdaaabac -> 256 a b d 256 a b a c -> 257 b d 257 b a c
    assert_eq!(encode(&vocab, text, false), vec![257, 98, 100, 257, 98, 97, 99]);
    assert_eq!(vocab.stringify_word(&[257]), "aaa");
    assert_eq!(decode(&vocab, vec![257, 98, 100, 257, 98, 97, 99]), text);
}

#[test]
fn empty_vocabulary_is_the_identity_on_bytes() {
    let vocab = Vocabulary { vocab_hash: HashMap::new(), vocab_vec: Vec::new() };
    assert_eq!(encode(&vocab, "", false), Vec::<u32>::new());
    assert_eq!(decode(&vocab, Vec::new()), "");
    assert_eq!(encode(&vocab, "abc", false), vec![97, 98, 99]);
    assert_eq!(decode(&vocab, vec![97, 98, 99]), "abc");
}

#[test]
fn chunks_and_counts_from_the_crate_root() {
    assert_eq!(split("to be"), vec!["to".to_string(), " be".to_string()]);
    let counts: PairCounts = pair_counts(&vec![1, 2, 3]);
    assert_eq!(counts.get(1, 2), 1);
    assert_eq!(counts.get(2, 3), 1);
    assert_eq!(counts.len(), 2);
}
