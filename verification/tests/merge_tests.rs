use bpe_tokenizer::merge::{merge_chunk, merge_chunks};

fn merged(input: &[u32], left: u32, right: u32, fresh: u32) -> Vec<u32> {
    let mut chunk = input.to_vec();
    merge_chunk(&mut chunk, left, right, fresh);
    chunk
}

#[test]
fn merge_replaces_every_occurrence() {
    assert_eq!(merged(&[1, 2, 3, 1, 2], 1, 2, 256), vec![256, 3, 256]);
}

#[test]
fn merge_is_greedy_from_the_left() {
    assert_eq!(merged(&[5, 5, 5], 5, 5, 256), vec![256, 5]);
    assert_eq!(merged(&[5, 5, 5, 5], 5, 5, 256), vec![256, 256]);
}

#[test]
fn merge_leaves_short_and_unrelated_chunks_alone() {
    assert_eq!(merged(&[], 1, 2, 256), Vec::<u32>::new());
    assert_eq!(merged(&[1], 1, 2, 256), vec![1]);
    assert_eq!(merged(&[2, 1, 3], 1, 2, 256), vec![2, 1, 3]);
}

#[test]
fn merge_pairs_the_written_symbol_with_what_follows() {
    // the scan stays on the symbol it wrote: 1 2 2 -> 1 2 -> 1
    assert_eq!(merged(&[1, 2, 2, 3], 1, 2, 1), vec![1, 3]);
}

#[test]
fn merge_chunks_keeps_chunks_apart() {
    let mut chunks = vec![vec![7, 1], vec![2, 7], vec![1, 2, 1, 2]];
    merge_chunks(&mut chunks, 1, 2, 300);
    assert_eq!(chunks, vec![vec![7, 1], vec![2, 7], vec![300, 300]]);
}
