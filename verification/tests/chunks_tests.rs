use bpe_tokenizer::chunks::{concat_chunks, to_symbols};
use bpe_tokenizer::vocabulary::{expand_symbol, expand_symbols};
use std::collections::HashMap;

#[test]
fn to_symbols_gives_the_bytes_of_each_chunk() {
    let chunks = vec!["ab".to_string(), " \u{e9}".to_string(), "\u{1F44B}".to_string()];
    assert_eq!(
        to_symbols(&chunks),
        vec![vec![97, 98], vec![32, 0xC3, 0xA9], vec![0xF0, 0x9F, 0x91, 0x8B]]
    );
    assert_eq!(to_symbols(&Vec::new()), Vec::<Vec<u32>>::new());
}

#[test]
fn concat_chunks_keeps_the_order() {
    assert_eq!(concat_chunks(&vec![vec![1, 2], vec![], vec![3], vec![4, 5]]), vec![1, 2, 3, 4, 5]);
    assert_eq!(concat_chunks(&Vec::new()), Vec::<u32>::new());
}

#[test]
fn expand_symbol_appends_to_what_is_there() {
    let mut map = HashMap::new();
    map.insert(256, (1, 2));
    map.insert(257, (256, 256));
    let mut out = vec![9];
    expand_symbol(&map, 257, &mut out);
    assert_eq!(out, vec![9, 1, 2, 1, 2]);
    expand_symbol(&map, 300, &mut out);
    assert_eq!(out, vec![9, 1, 2, 1, 2, 300]);
}

#[test]
fn expand_symbols_takes_only_pairs_of_smaller_symbols() {
    let mut map = HashMap::new();
    map.insert(256, (1, 2));
    map.insert(257, (258, 1));
    map.insert(258, (258, 258));
    map.insert(7, (1, 1));
    assert_eq!(expand_symbols(&map, &[256, 257, 258, 7]), vec![1, 2, 257, 258, 7]);
}

#[test]
fn expand_symbols_copes_with_a_deep_vocabulary() {
    let depth: u32 = 200_000;
    let mut map = HashMap::new();
    map.insert(256, (97, 97));
    for symbol in 257..256 + depth {
        map.insert(symbol, (symbol - 1, 97));
    }
    let out = expand_symbols(&map, &[256 + depth - 1]);
    assert_eq!(out.len(), depth as usize + 1);
    assert!(out.iter().all(|symbol| *symbol == 97));
}
