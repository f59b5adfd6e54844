//! Training: minting one symbol after another for the pair that occurs most.

use crate::chunker::{lemma_split_lossless, split, split_spec};
use crate::chunks::{
    chunk_symbols, lemma_chunk_symbols_are_bytes, lemma_symbols_deep_view, symbols_below,
    to_symbols, total_len,
};
use crate::merge::{lemma_merge_pair_bounds, merge_all, merge_chunks};
use crate::pairs::{
    chunk_pair_count, count_in, count_pairs, lemma_counted_pair_in_chunks, pair_le,
};
use crate::vocabulary::{merges_well_formed, reverse_map, Vocabulary};
use std::collections::HashMap;
use vstd::prelude::*;

verus! {

/// The vocabulary size that [`execute`] trains to.
pub const DEFAULT_VOCAB_SIZE: u32 = 512;

/// Whether `pair` is the one to merge next: it occurs at least twice in the
/// chunks, no pair occurs more often, and of the pairs that occur as often
/// it is the greatest by its left symbol, then by its right one.
pub open spec fn wins(chunks: Seq<Seq<u32>>, pair: (u32, u32)) -> bool {
    &&& chunk_pair_count(chunks, pair) >= 2
    &&& forall|other: (u32, u32)|
        chunk_pair_count(chunks, other) >= 2 ==> {
            ||| #[trigger] chunk_pair_count(chunks, other) < chunk_pair_count(chunks, pair)
            ||| chunk_pair_count(chunks, other) == chunk_pair_count(chunks, pair) && pair_le(
                other,
                pair,
            )
        }
}

/// The pair to merge next, if any pair occurs twice.
pub open spec fn winning_pair(chunks: Seq<Seq<u32>>) -> Option<(u32, u32)> {
    if exists|pair: (u32, u32)| wins(chunks, pair) {
        Some(choose|pair: (u32, u32)| wins(chunks, pair))
    } else {
        None
    }
}

/// The rules that training mints from `chunks` on, the first of them for
/// the symbol `fresh`, within a budget of `budget` merges. Training ends
/// early when no pair occurs twice.
pub open spec fn train_from(chunks: Seq<Seq<u32>>, fresh: u32, budget: nat) -> Seq<
    ((u32, u32), u32),
>
    decreases budget,
{
    if budget == 0 {
        Seq::empty()
    } else {
        match winning_pair(chunks) {
            None => Seq::empty(),
            Some(pair) => seq![(pair, fresh)] + train_from(
                merge_all(chunks, pair.0, pair.1, fresh),
                (fresh + 1) as u32,
                (budget - 1) as nat,
            ),
        }
    }
}

/// The number of merges that a target vocabulary size leaves room for.
pub open spec fn merge_budget(target: u32) -> nat {
    if target > 256 {
        (target - 256) as nat
    } else {
        0
    }
}

/// The rules that training on `text` mints for a vocabulary of `target`
/// symbols.
pub open spec fn train_spec(text: Seq<char>, target: u32) -> Seq<((u32, u32), u32)> {
    train_from(chunk_symbols(split_spec(text)), 256, merge_budget(target))
}

/// Training never mints more rules than its budget.
pub proof fn lemma_train_within_budget(chunks: Seq<Seq<u32>>, fresh: u32, budget: nat)
    ensures
        train_from(chunks, fresh, budget).len() <= budget,
    decreases budget,
{
    if budget > 0 {
        if let Some(pair) = winning_pair(chunks) {
            lemma_train_within_budget(
                merge_all(chunks, pair.0, pair.1, fresh),
                (fresh + 1) as u32,
                (budget - 1) as nat,
            );
        }
    }
}

/// At most one pair wins.
pub proof fn lemma_winner_unique(chunks: Seq<Seq<u32>>, a: (u32, u32), b: (u32, u32))
    requires
        wins(chunks, a),
        wins(chunks, b),
    ensures
        a == b,
{
}

/// One merge keeps every symbol below the bound that the fresh symbol is
/// below, and leaves no more symbols than there were.
pub proof fn lemma_merge_all_bounds(
    chunks: Seq<Seq<u32>>,
    left: u32,
    right: u32,
    fresh: u32,
    n: int,
)
    requires
        symbols_below(chunks, fresh as int),
        0 <= n <= chunks.len(),
    ensures
        symbols_below(merge_all(chunks, left, right, fresh), fresh + 1),
        total_len(merge_all(chunks, left, right, fresh), n) <= total_len(chunks, n),
    decreases n,
{
    let merged = merge_all(chunks, left, right, fresh);
    assert forall|i: int, j: int| 0 <= i < merged.len() && 0 <= j < merged[i].len() implies (
    #[trigger] merged[i][j]) < fresh + 1 by {
        lemma_merge_pair_bounds(chunks[i], left, right, fresh, fresh + 1);
    }
    if n > 0 {
        lemma_merge_all_bounds(chunks, left, right, fresh, n - 1);
        lemma_merge_pair_bounds(chunks[n - 1], left, right, fresh, fresh + 1);
    }
}

/// Trains on chunks of byte symbols: up to `target - 256` times, finds the
/// pair that [`wins`], mints the next symbol for it, counting up from 256,
/// and merges it in every chunk. The rules are those of [`train_from`], and
/// the vocabulary is well formed.
pub fn train_chunks(chunks: Vec<Vec<u32>>, target: u32) -> (vocab: Vocabulary)
    requires
        symbols_below(chunks.deep_view(), 256),
        total_len(chunks.deep_view(), chunks.len() as int) <= usize::MAX,
    ensures
        vocab.vocab_vec@ == train_from(chunks.deep_view(), 256, merge_budget(target)),
        forall|i: int|
            0 <= i < vocab.vocab_vec.len() ==> (#[trigger] vocab.vocab_vec[i]).1 == 256 + i,
        vocab.wf(),
{
    broadcast use lemma_symbols_deep_view;

    let ghost start = chunks.deep_view();
    let mut chunks = chunks;
    let budget: u32 = if target > 256 {
        target - 256
    } else {
        0
    };
    let mut vocab_vec: Vec<((u32, u32), u32)> = Vec::new();
    let mut vocab_hash: HashMap<u32, (u32, u32)> = HashMap::new();
    let mut new_word: u32 = 256;
    let mut merges: u32 = 0;
    let mut exhausted: bool = false;
    while merges < budget && !exhausted
        invariant
            merges <= budget,
            budget == merge_budget(target),
            new_word == 256 + merges,
            256 + budget <= u32::MAX,
            vocab_vec.len() == merges,
            symbols_below(chunks.deep_view(), new_word as int),
            total_len(chunks.deep_view(), chunks.len() as int) <= usize::MAX,
            merges_well_formed(vocab_vec@),
            forall|i: int| 0 <= i < vocab_vec.len() ==> (#[trigger] vocab_vec[i]).1 == 256 + i,
            vocab_hash@ == reverse_map(vocab_vec@),
            train_from(start, 256, budget as nat) == vocab_vec@ + if exhausted {
                Seq::empty()
            } else {
                train_from(chunks.deep_view(), new_word, (budget - merges) as nat)
            },
        decreases budget - merges + if exhausted { 0int } else { 1int },
    {
        let ghost now = chunks.deep_view();
        let ghost rules = vocab_vec@;
        let counts = count_pairs(&chunks);
        match counts.best() {
            None => {
                proof {
                    assert forall|pair: (u32, u32)| !wins(now, pair) by {
                        assert(count_in(counts@, pair) == chunk_pair_count(now, pair));
                    }
                }
                exhausted = true;
            },
            Some((pair, _)) => {
                proof {
                    assert(wins(now, pair)) by {
                        assert forall|other: (u32, u32)|
                            chunk_pair_count(now, other) >= 2 implies (#[trigger] chunk_pair_count(
                                now,
                                other,
                            ) < chunk_pair_count(now, pair) || (chunk_pair_count(now, other)
                                == chunk_pair_count(now, pair) && pair_le(other, pair))) by {
                            assert(count_in(counts@, other) == chunk_pair_count(now, other));
                        }
                    }
                    lemma_winner_unique(now, pair, winning_pair(now)->0);
                    lemma_counted_pair_in_chunks(now, pair, now.len() as int, new_word as int);
                    lemma_merge_all_bounds(now, pair.0, pair.1, new_word, now.len() as int);
                }
                vocab_vec.push((pair, new_word));
                vocab_hash.insert(new_word, pair);
                merge_chunks(&mut chunks, pair.0, pair.1, new_word);
                proof {
                    assert(vocab_vec@.drop_last() == rules);
                }
                new_word = new_word + 1;
                merges = merges + 1;
            },
        }
    }
    Vocabulary { vocab_hash, vocab_vec }
}

/// Trains a vocabulary of up to `target` symbols on `text`: splits the text
/// into chunks and trains on their bytes. Training on the empty text mints
/// nothing. `verbose` has no bearing on the result.
#[allow(unused_variables)]
pub fn train_tokenizer(text: &str, target: u32, verbose: bool) -> (vocab: Vocabulary)
    ensures
        vocab.vocab_vec@ == train_spec(text@, target),
        vocab.vocab_vec@.len() <= merge_budget(target),
        forall|i: int|
            0 <= i < vocab.vocab_vec.len() ==> (#[trigger] vocab.vocab_vec[i]).1 == 256 + i,
        vocab.wf(),
{
    let text_len: usize = text.as_bytes().len();
    if text_len == 0 {
        proof {
            lemma_split_lossless(text@);
            lemma_train_within_budget(chunk_symbols(split_spec(text@)), 256, merge_budget(target));
        }
        return Vocabulary { vocab_hash: HashMap::new(), vocab_vec: Vec::new() };
    }
    let split_text: Vec<String> = split(text);
    let split_bytes_ext: Vec<Vec<u32>> = to_symbols(&split_text);
    proof {
        let chunks = split_text.deep_view();
        lemma_chunk_symbols_are_bytes(chunks, chunks.len() as int);
        assert(chunks.take(chunks.len() as int) == chunks);
        lemma_train_within_budget(chunk_symbols(split_spec(text@)), 256, merge_budget(target));
    }
    train_chunks(split_bytes_ext, target)
}

/// Trains a vocabulary of [`DEFAULT_VOCAB_SIZE`] symbols on `test_string`.
/// `verbose` has no bearing on the result.
pub fn execute(test_string: &str, verbose: bool) -> (vocab: Vocabulary)
    ensures
        vocab.vocab_vec@ == train_spec(test_string@, DEFAULT_VOCAB_SIZE),
        vocab.wf(),
{
    train_tokenizer(test_string, DEFAULT_VOCAB_SIZE, verbose)
}

} // verus!
