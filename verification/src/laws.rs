//! What holds of the tokenizer as a whole, proved from the contracts of its
//! parts.

use crate::chunker::{lemma_split_lossless, split_spec};
use crate::chunks::{chunk_symbols, symbols_below, total_len};
use crate::codec::{
    apply_rules, decode_bytes, decode_spec, encode_spec, encoded_chunks, low_bytes,
};
use crate::merge::{lemma_merge_pair_keeps_leaves, merge_all};
use crate::pairs::{chunk_pair_count, lemma_total_count_bound, pack, pair_le};
use crate::trainer::{train_from, winning_pair, wins};
use crate::unicode::lemma_encode_concat;
use crate::vocabulary::{
    leaves_of, lemma_leaves_of_bytes, lemma_leaves_of_concat, lemma_reverse_map_holds,
    merges_well_formed, reverse_map,
};
use vstd::prelude::*;
use vstd::utf8::*;

verus! {

/// Chunks are encoded alone: what the rules make of a chunk is what they
/// would make of it were it the only chunk.
pub proof fn lemma_chunk_encoded_alone(
    chunks: Seq<Seq<u32>>,
    rules: Seq<((u32, u32), u32)>,
    n: int,
    i: int,
)
    requires
        0 <= i < chunks.len(),
    ensures
        apply_rules(chunks, rules, n).len() == chunks.len(),
        apply_rules(seq![chunks[i]], rules, n).len() == 1,
        apply_rules(chunks, rules, n)[i] == apply_rules(seq![chunks[i]], rules, n)[0],
    decreases n,
{
    if n > 0 {
        lemma_chunk_encoded_alone(chunks, rules, n - 1, i);
    }
}

/// Chunks stay apart: however many rules of a well-formed vocabulary were
/// replayed, there are as many chunks as before, and the symbols of each
/// chunk unfold to the bytes of that chunk and of no other.
pub proof fn lemma_chunks_stay_apart(
    merges: Seq<((u32, u32), u32)>,
    chunks: Seq<Seq<u32>>,
    n: int,
)
    requires
        merges_well_formed(merges),
        symbols_below(chunks, 256),
        0 <= n <= merges.len(),
    ensures
        apply_rules(chunks, merges, n).len() == chunks.len(),
        forall|i: int|
            0 <= i < chunks.len() ==> leaves_of(
                reverse_map(merges),
                #[trigger] apply_rules(chunks, merges, n)[i],
            ) == chunks[i],
    decreases n,
{
    let map = reverse_map(merges);
    if n == 0 {
        assert forall|i: int| 0 <= i < chunks.len() implies leaves_of(
            map,
            #[trigger] apply_rules(chunks, merges, n)[i],
        ) == chunks[i] by {
            lemma_leaves_of_bytes(map, chunks[i]);
        }
    } else {
        lemma_chunks_stay_apart(merges, chunks, n - 1);
        let before = apply_rules(chunks, merges, n - 1);
        let rule = merges[n - 1];
        lemma_reverse_map_holds(merges, n - 1);
        assert forall|i: int| 0 <= i < chunks.len() implies leaves_of(
            map,
            #[trigger] apply_rules(chunks, merges, n)[i],
        ) == chunks[i] by {
            lemma_merge_pair_keeps_leaves(map, before[i], rule.0.0, rule.0.1, rule.1);
        }
    }
}

/// Unfolding chunks side by side is unfolding each and putting the results
/// side by side.
proof fn lemma_leaves_of_flatten(
    map: Map<u32, (u32, u32)>,
    chunks: Seq<Seq<u32>>,
    unfolded: Seq<Seq<u32>>,
)
    requires
        chunks.len() == unfolded.len(),
        forall|i: int| 0 <= i < chunks.len() ==> leaves_of(map, chunks[i]) == unfolded[i],
    ensures
        leaves_of(map, chunks.flatten()) == unfolded.flatten(),
    decreases chunks.len(),
{
    if chunks.len() > 0 {
        let rest = chunks.drop_first();
        lemma_leaves_of_flatten(map, rest, unfolded.drop_first());
        lemma_leaves_of_concat(map, chunks[0], rest.flatten());
    }
}

/// The low bytes of the symbols of chunks of text are the bytes of the
/// chunks side by side.
proof fn lemma_low_bytes_of_chunks(chunks: Seq<Seq<char>>)
    ensures
        low_bytes(chunk_symbols(chunks).flatten()) == encode_utf8(chunks.flatten()),
    decreases chunks.len(),
{
    let symbols = chunk_symbols(chunks);
    if chunks.len() > 0 {
        let rest = chunks.drop_first();
        lemma_low_bytes_of_chunks(rest);
        assert(symbols.drop_first() == chunk_symbols(rest));
        lemma_encode_concat(chunks[0], rest.flatten());
    }
}

/// The tokens of a text unfold to the bytes of the text.
pub proof fn lemma_encoded_bytes(merges: Seq<((u32, u32), u32)>, text: Seq<char>)
    requires
        merges_well_formed(merges),
    ensures
        decode_bytes(reverse_map(merges), encode_spec(merges, text)) == encode_utf8(text),
{
    let map = reverse_map(merges);
    let chunks = split_spec(text);
    let symbols = chunk_symbols(chunks);
    lemma_split_lossless(text);
    lemma_chunks_stay_apart(merges, symbols, merges.len() as int);
    lemma_leaves_of_flatten(map, encoded_chunks(merges, text), symbols);
    lemma_low_bytes_of_chunks(chunks);
}

/// Round trip: for every well-formed vocabulary and every text, decoding
/// the encoding of the text gives the text.
pub proof fn lemma_round_trip(merges: Seq<((u32, u32), u32)>, text: Seq<char>)
    requires
        merges_well_formed(merges),
    ensures
        decode_spec(reverse_map(merges), encode_spec(merges, text)) == text,
{
    lemma_encoded_bytes(merges, text);
    encode_utf8_valid_utf8(text);
    encode_utf8_decode_utf8(text);
}

/// Encoding again: the text decoded from the tokens of a text encodes to
/// the same tokens.
pub proof fn lemma_reencoding_is_stable(merges: Seq<((u32, u32), u32)>, text: Seq<char>)
    requires
        merges_well_formed(merges),
    ensures
        encode_spec(merges, decode_spec(reverse_map(merges), encode_spec(merges, text)))
            == encode_spec(merges, text),
{
    lemma_round_trip(merges, text);
}

/// The empty text encodes to no token, and no token decodes to the empty
/// text, whatever the vocabulary.
pub proof fn lemma_empty(merges: Seq<((u32, u32), u32)>, map: Map<u32, (u32, u32)>)
    ensures
        encode_spec(merges, Seq::<char>::empty()) == Seq::<u32>::empty(),
        decode_spec(map, Seq::<u32>::empty()) == Seq::<char>::empty(),
{
    let text = Seq::<char>::empty();
    lemma_split_lossless(text);
    lemma_rules_keep_chunk_count(chunk_symbols(split_spec(text)), merges, merges.len() as int);
}

/// Replaying rules never changes the number of chunks.
pub proof fn lemma_rules_keep_chunk_count(
    chunks: Seq<Seq<u32>>,
    rules: Seq<((u32, u32), u32)>,
    n: int,
)
    ensures
        apply_rules(chunks, rules, n).len() == chunks.len(),
    decreases n,
{
    if n > 0 {
        lemma_rules_keep_chunk_count(chunks, rules, n - 1);
    }
}

/// The chunks as training leaves them after `k` merges, the first of them
/// minting `fresh`; once no pair wins they stay as they are.
pub open spec fn chunks_after(chunks: Seq<Seq<u32>>, fresh: u32, k: nat) -> Seq<Seq<u32>>
    decreases k,
{
    if k == 0 {
        chunks
    } else {
        match winning_pair(chunks) {
            None => chunks,
            Some(pair) => chunks_after(
                merge_all(chunks, pair.0, pair.1, fresh),
                (fresh + 1) as u32,
                (k - 1) as nat,
            ),
        }
    }
}

/// Where some pair occurs twice, a pair wins.
pub proof fn lemma_winner_exists(chunks: Seq<Seq<u32>>, pair: (u32, u32))
    requires
        chunk_pair_count(chunks, pair) >= 2,
    ensures
        winning_pair(chunks) is Some,
        wins(chunks, winning_pair(chunks)->0),
    decreases
        total_len(chunks, chunks.len() as int) - chunk_pair_count(chunks, pair),
        0x1_0000_0000_0000_0000 - pack(pair),
{
    if !wins(chunks, pair) {
        let other = choose|other: (u32, u32)|
            chunk_pair_count(chunks, other) >= 2 && !(#[trigger] chunk_pair_count(chunks, other)
                < chunk_pair_count(chunks, pair) || (chunk_pair_count(chunks, other)
                == chunk_pair_count(chunks, pair) && pair_le(other, pair)));
        lemma_total_count_bound(chunks, other, chunks.len() as int);
        lemma_winner_exists(chunks, other);
    }
}

/// Whether some pair occurs at least twice in the chunks.
pub open spec fn some_pair_repeats(chunks: Seq<Seq<u32>>) -> bool {
    exists|pair: (u32, u32)| chunk_pair_count(chunks, pair) >= 2
}

/// The number of merges: training mints as many rules as its budget
/// allows, or fewer where it ran out of pairs. Before each of its merges
/// some pair occurred twice, and where it stopped short of the budget no
/// pair occurs twice any more.
pub proof fn lemma_merge_count(chunks: Seq<Seq<u32>>, fresh: u32, budget: nat)
    ensures
        train_from(chunks, fresh, budget).len() <= budget,
        forall|k: nat|
            k < train_from(chunks, fresh, budget).len() ==> some_pair_repeats(
                #[trigger] chunks_after(chunks, fresh, k),
            ),
        train_from(chunks, fresh, budget).len() < budget ==> !some_pair_repeats(
            chunks_after(chunks, fresh, train_from(chunks, fresh, budget).len()),
        ),
    decreases budget,
{
    let rules = train_from(chunks, fresh, budget);
    if budget > 0 {
        match winning_pair(chunks) {
            None => {
                assert forall|pair: (u32, u32)| chunk_pair_count(chunks, pair) < 2 by {
                    if chunk_pair_count(chunks, pair) >= 2 {
                        lemma_winner_exists(chunks, pair);
                    }
                }
            },
            Some(winner) => {
                let next = merge_all(chunks, winner.0, winner.1, fresh);
                let next_fresh = (fresh + 1) as u32;
                lemma_merge_count(next, next_fresh, (budget - 1) as nat);
                assert forall|k: nat| k < rules.len() implies some_pair_repeats(
                    #[trigger] chunks_after(chunks, fresh, k),
                ) by {
                    if k > 0 {
                        let j = (k - 1) as nat;
                        assert(chunks_after(chunks, fresh, k) == chunks_after(next, next_fresh, j));
                    }
                }
            },
        }
    }
}

/// Training and encoding agree: replaying the rules that training minted
/// from chunks, on those chunks, gives the chunks as training left them.
pub proof fn lemma_replay_matches_training(
    chunks: Seq<Seq<u32>>,
    fresh: u32,
    budget: nat,
)
    ensures
        apply_rules(
            chunks,
            train_from(chunks, fresh, budget),
            train_from(chunks, fresh, budget).len() as int,
        ) == chunks_after(chunks, fresh, budget),
    decreases budget,
{
    if budget > 0 {
        if let Some(winner) = winning_pair(chunks) {
            let next = merge_all(chunks, winner.0, winner.1, fresh);
            let next_fresh = (fresh + 1) as u32;
            let rest = train_from(next, next_fresh, (budget - 1) as nat);
            lemma_replay_matches_training(next, next_fresh, (budget - 1) as nat);
            lemma_replay_shifts(chunks, (winner, fresh), rest, rest.len() as int);
        }
    }
}

/// Replaying a rule and then `n` more is replaying `n + 1` rules of the
/// list that starts with that rule.
proof fn lemma_replay_shifts(
    chunks: Seq<Seq<u32>>,
    rule: ((u32, u32), u32),
    rest: Seq<((u32, u32), u32)>,
    n: int,
)
    requires
        0 <= n <= rest.len(),
    ensures
        apply_rules(chunks, seq![rule] + rest, n + 1) == apply_rules(
            merge_all(chunks, rule.0.0, rule.0.1, rule.1),
            rest,
            n,
        ),
    decreases n,
{
    if n > 0 {
        lemma_replay_shifts(chunks, rule, rest, n - 1);
    } else {
        assert(apply_rules(chunks, seq![rule] + rest, 0) == chunks);
    }
}

} // verus!
