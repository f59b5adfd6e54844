use bpe_tokenizer::pairs::{count_pairs, pair_counts, PairCounts};

#[test]
fn overlapping_windows_are_each_counted() {
    let counts = pair_counts(&vec![5, 5, 5]);
    assert_eq!(counts.get(5, 5), 2);
    assert_eq!(counts.len(), 1);
}

#[test]
fn distinct_pairs_are_counted_once_each() {
    let counts = pair_counts(&vec![1, 2, 3]);
    assert_eq!(counts.get(1, 2), 1);
    assert_eq!(counts.get(2, 3), 1);
    assert_eq!(counts.get(1, 3), 0);
    assert_eq!(counts.get(2, 1), 0);
    assert_eq!(counts.len(), 2);
}

#[test]
fn empty_and_single_sequences_hold_no_pair() {
    assert_eq!(pair_counts(&vec![]).len(), 0);
    assert_eq!(pair_counts(&vec![7]).len(), 0);
    assert_eq!(pair_counts(&vec![7]).get(7, 7), 0);
}

#[test]
fn pair_counts_does_not_change_its_input() {
    let input = vec![9, 8, 9, 8];
    let counts = pair_counts(&input);
    assert_eq!(input, vec![9, 8, 9, 8]);
    assert_eq!(counts.get(9, 8), 2);
    assert_eq!(counts.get(8, 9), 1);
}

#[test]
fn pairs_with_large_symbols_are_told_apart() {
    let counts = pair_counts(&vec![u32::MAX, 0, u32::MAX, 0, 1, u32::MAX]);
    assert_eq!(counts.get(u32::MAX, 0), 2);
    assert_eq!(counts.get(0, u32::MAX), 1);
    assert_eq!(counts.get(0, 1), 1);
    assert_eq!(counts.get(1, u32::MAX), 1);
    assert_eq!(counts.get(u32::MAX, u32::MAX), 0);
    assert_eq!(counts.len(), 4);
}

#[test]
fn count_pairs_does_not_count_across_chunks() {
    let counts = count_pairs(&vec![vec![1, 2], vec![2, 1, 2], vec![], vec![1]]);
    assert_eq!(counts.get(1, 2), 2);
    assert_eq!(counts.get(2, 1), 1);
    assert_eq!(counts.get(2, 2), 0);
    assert_eq!(counts.len(), 2);
}

#[test]
fn best_needs_a_pair_that_occurs_twice() {
    assert_eq!(pair_counts(&vec![1, 2, 3, 4]).best(), None);
    assert_eq!(PairCounts::new().best(), None);
}

#[test]
fn best_prefers_the_higher_count() {
    // (9, 9) occurs three times, (1, 2) twice.
    let counts = pair_counts(&vec![9, 9, 9, 9, 1, 2, 1, 2]);
    assert_eq!(counts.best(), Some(((9, 9), 3)));
    let counts = pair_counts(&vec![1, 1, 1, 1, 9, 2, 9, 2]);
    assert_eq!(counts.best(), Some(((1, 1), 3)));
}

#[test]
fn best_breaks_ties_by_the_greater_pair() {
    let counts = pair_counts(&vec![1, 2, 5, 3, 4, 6, 1, 2, 7, 3, 4]);
    assert_eq!(counts.get(1, 2), 2);
    assert_eq!(counts.get(3, 4), 2);
    for _ in 0..20 {
        assert_eq!(counts.best(), Some(((3, 4), 2)));
    }
    // the left symbol decides before the right one
    let counts = pair_counts(&vec![2, 1, 0, 2, 1, 0, 1, 9, 0, 1, 9]);
    assert_eq!(counts.get(2, 1), 2);
    assert_eq!(counts.get(1, 9), 2);
    assert_eq!(counts.best(), Some(((2, 1), 2)));
}

#[test]
fn tally_adds_to_what_was_counted() {
    let mut counts = PairCounts::new();
    assert_eq!(counts.len(), 0);
    counts.tally(&vec![1, 2, 1, 2]);
    counts.tally(&vec![2, 1]);
    counts.tally(&vec![3]);
    counts.tally(&vec![]);
    assert_eq!(counts.get(1, 2), 2);
    assert_eq!(counts.get(2, 1), 2);
    assert_eq!(counts.len(), 2);
    assert_eq!(counts.best(), Some(((2, 1), 2)));
}
