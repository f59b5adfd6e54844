use bpe_tokenizer::vocabulary::{render_bytes, Vocabulary};
use std::collections::HashMap;

fn vocabulary(merges: &[((u32, u32), u32)]) -> Vocabulary {
    let mut vocab_hash = HashMap::new();
    for (pair, symbol) in merges {
        vocab_hash.insert(*symbol, *pair);
    }
    Vocabulary { vocab_hash, vocab_vec: merges.to_vec() }
}

#[test]
fn expand_bytes_unfolds_nested_symbols() {
    let vocab = vocabulary(&[((97, 98), 256), ((256, 99), 257), ((257, 257), 258)]);
    assert_eq!(vocab.expand_bytes(&[258, 100]), b"abcabcd".to_vec());
    assert_eq!(vocab.expand_bytes(&[]), Vec::<u8>::new());
}

#[test]
fn expand_bytes_leaves_out_unknown_symbols() {
    let vocab = vocabulary(&[((97, 98), 256)]);
    assert_eq!(vocab.expand_bytes(&[97, 999, 256]), b"aab".to_vec());
}

#[test]
fn stringify_word_shows_plain_text() {
    let vocab = vocabulary(&[((104, 105), 256)]);
    assert_eq!(vocab.stringify_word(&[256, 33]), "hi!");
    assert_eq!(vocab.stringify_word(&[]), "");
    assert_eq!(vocab.stringify_word(&[32, 126]), " ~");
}

#[test]
fn stringify_word_escapes_control_bytes() {
    let vocab = vocabulary(&[]);
    assert_eq!(vocab.stringify_word(&[10]), "\\u000a");
    assert_eq!(vocab.stringify_word(&[0]), "\\u0000");
    assert_eq!(vocab.stringify_word(&[31]), "\\u001f");
    assert_eq!(vocab.stringify_word(&[127]), "\\u007f");
    assert_eq!(vocab.stringify_word(&[97, 9, 98]), "a\\u0009b");
}

#[test]
fn stringify_word_replaces_bytes_beyond_ascii() {
    let vocab = vocabulary(&[]);
    assert_eq!(vocab.stringify_word(&[128]), "\u{FFFD}");
    assert_eq!(vocab.stringify_word(&[255]), "\u{FFFD}");
    assert_eq!(vocab.stringify_word(&[97, 200, 98]), "a\u{FFFD}b");
}

#[test]
fn stringify_word_shows_a_run_once() {
    let vocab = vocabulary(&[]);
    // two control bytes: one escape, that of the first
    assert_eq!(vocab.stringify_word(&[10, 13]), "\\u000a");
    // a multi-byte character: one replacement character
    assert_eq!(vocab.stringify_word(&[0xE2, 0x82, 0xAC]), "\u{FFFD}");
    // a run of both kinds shows as its first byte does
    assert_eq!(vocab.stringify_word(&[200, 10]), "\u{FFFD}");
    assert_eq!(vocab.stringify_word(&[10, 200]), "\\u000a");
    // a plain byte ends the run
    assert_eq!(vocab.stringify_word(&[10, 97, 10]), "\\u000aa\\u000a");
}

#[test]
fn render_bytes_matches_stringify_word_on_raw_bytes() {
    let vocab = vocabulary(&[]);
    assert_eq!(render_bytes(b"a\tb"), vocab.stringify_word(&[97, 9, 98]));
}
