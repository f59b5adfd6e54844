use bpe_tokenizer::codec::{decode, encode};
use bpe_tokenizer::trainer::{execute, train_chunks, train_tokenizer, DEFAULT_VOCAB_SIZE};

#[test]
fn classic_example_merges_aa_first() {
    let vocab = train_tokenizer("aaabdaaabac", 258, false);
    assert_eq!(vocab.vocab_vec[0], ((97, 97), 256));
    assert_eq!(vocab.vocab_hash.get(&256), Some(&(97, 97)));
    // then (256, 97) and (97, 98) both occur twice: the greater pair wins
    assert_eq!(vocab.vocab_vec, vec![((97, 97), 256), ((256, 97), 257)]);
    assert_eq!(vocab.vocab_hash.len(), 2);
}

#[test]
fn training_on_empty_text_mints_nothing() {
    let vocab = train_tokenizer("", 512, false);
    assert!(vocab.vocab_vec.is_empty());
    assert!(vocab.vocab_hash.is_empty());
}

#[test]
fn training_stops_when_no_pair_repeats() {
    let vocab = train_tokenizer("abcdefg", 512, false);
    assert!(vocab.vocab_vec.is_empty());
    // "abab": (a, b) twice, then 256 256 once only
    let vocab = train_tokenizer("abab", 512, false);
    assert_eq!(vocab.vocab_vec, vec![((97, 98), 256)]);
}

#[test]
fn training_stops_at_the_target() {
    let text = "abababab cdcdcdcd abababab";
    assert_eq!(train_tokenizer(text, 256, false).vocab_vec.len(), 0);
    assert_eq!(train_tokenizer(text, 100, false).vocab_vec.len(), 0);
    assert_eq!(train_tokenizer(text, 257, false).vocab_vec.len(), 1);
    assert_eq!(train_tokenizer(text, 259, false).vocab_vec.len(), 3);
    let full = train_tokenizer(text, 512, false).vocab_vec;
    assert!(full.len() < 256);
    assert_eq!(&full[..3], &train_tokenizer(text, 259, false).vocab_vec[..]);
}

#[test]
fn tie_goes_to_the_greater_pair() {
    // bytes 1 2 5 3 4 6 1 2 7 3 4: (1, 2) and (3, 4) occur twice each
    let text = "\u{1}\u{2}\u{5}\u{3}\u{4}\u{6}\u{1}\u{2}\u{7}\u{3}\u{4}";
    for _ in 0..10 {
        let vocab = train_tokenizer(text, 257, false);
        assert_eq!(vocab.vocab_vec, vec![((3, 4), 256)]);
    }
    let chunks = vec![vec![1, 2, 5, 3, 4, 6, 1, 2, 7, 3, 4]];
    assert_eq!(train_chunks(chunks, 258).vocab_vec, vec![((3, 4), 256), ((1, 2), 257)]);
}

#[test]
fn a_pair_across_two_chunks_is_never_merged() {
    // "ab ab ab": chunks "ab", " ab", " ab"; (b, space) straddles chunks
    let vocab = train_tokenizer("ab ab ab", 512, false);
    for (pair, _) in &vocab.vocab_vec {
        assert_ne!(*pair, (98, 32));
    }
    assert_eq!(vocab.vocab_vec, vec![((97, 98), 256), ((32, 256), 257)]);
}

#[test]
fn minted_symbols_count_up_from_256() {
    let vocab = train_tokenizer("the cat sat on the mat, the cat sat on the hat", 300, false);
    assert!(!vocab.vocab_vec.is_empty());
    for (i, (pair, symbol)) in vocab.vocab_vec.iter().enumerate() {
        assert_eq!(*symbol, 256 + i as u32);
        assert!(pair.0 < *symbol && pair.1 < *symbol);
        assert_eq!(vocab.vocab_hash.get(symbol), Some(pair));
    }
    assert_eq!(vocab.vocab_hash.len(), vocab.vocab_vec.len());
}

#[test]
fn verbose_does_not_change_the_vocabulary() {
    let text = "so it goes, so it goes";
    assert_eq!(
        train_tokenizer(text, 270, true).vocab_vec,
        train_tokenizer(text, 270, false).vocab_vec
    );
    assert_eq!(execute(text, true).vocab_vec, execute(text, false).vocab_vec);
}

#[test]
fn execute_trains_to_the_default_size() {
    assert_eq!(DEFAULT_VOCAB_SIZE, 512);
    let text = "low lower lowest, new newer newest; low low new new";
    assert_eq!(execute(text, false).vocab_vec, train_tokenizer(text, 512, false).vocab_vec);
}

#[test]
fn trained_vocabulary_round_trips() {
    let corpus = "Hello hello hello world!\n\tna\u{ef}ve caf\u{e9} \u{1F44B}\u{1F44B} 12345 it's";
    let vocab = execute(corpus, false);
    for text in [corpus, "", "hello", "unseen text 999 \u{2654}", "  spaces   and\ttabs \n"] {
        let tokens = encode(&vocab, text, false);
        assert_eq!(decode(&vocab, tokens.clone()), text);
        assert_eq!(encode(&vocab, &decode(&vocab, tokens.clone()), false), tokens);
    }
    assert!(encode(&vocab, corpus, false).len() < corpus.len());
}
