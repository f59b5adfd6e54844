//! Replacing a pair of adjacent symbols by one symbol within a sequence.

use crate::chunks::lemma_symbols_deep_view;
use crate::vocabulary::{expandable, leaves_of, lemma_leaves_of_concat, lemma_leaves_of_one};
use vstd::prelude::*;

verus! {

/// The sequence left by one left-to-right pass over `s` that replaces the
/// pair `(left, right)` by `fresh`. After a replacement the scan stays where
/// it is, so the symbol just written is paired with the one that follows it.
pub open spec fn merge_pair(s: Seq<u32>, left: u32, right: u32, fresh: u32) -> Seq<u32>
    decreases s.len(),
{
    if s.len() < 2 {
        s
    } else if s[0] == left && s[1] == right {
        merge_pair(seq![fresh] + s.subrange(2, s.len() as int), left, right, fresh)
    } else {
        seq![s[0]] + merge_pair(s.drop_first(), left, right, fresh)
    }
}

/// A pass never makes a sequence longer, and it holds no symbol that is
/// neither `fresh` nor in the sequence before.
pub proof fn lemma_merge_pair_bounds(s: Seq<u32>, left: u32, right: u32, fresh: u32, bound: int)
    requires
        forall|i: int| 0 <= i < s.len() ==> s[i] < bound,
        fresh < bound,
    ensures
        merge_pair(s, left, right, fresh).len() <= s.len(),
        forall|i: int|
            0 <= i < merge_pair(s, left, right, fresh).len() ==> merge_pair(
                s,
                left,
                right,
                fresh,
            )[i] < bound,
    decreases s.len(),
{
    if s.len() >= 2 {
        if s[0] == left && s[1] == right {
            let next = seq![fresh] + s.subrange(2, s.len() as int);
            lemma_merge_pair_bounds(next, left, right, fresh, bound);
        } else {
            lemma_merge_pair_bounds(s.drop_first(), left, right, fresh, bound);
        }
    }
}

/// A pass that writes a symbol for the pair it stands for changes nothing
/// in what the sequence unfolds to.
pub proof fn lemma_merge_pair_keeps_leaves(
    map: Map<u32, (u32, u32)>,
    s: Seq<u32>,
    left: u32,
    right: u32,
    fresh: u32,
)
    requires
        expandable(map, fresh),
        map[fresh] == (left, right),
    ensures
        leaves_of(map, merge_pair(s, left, right, fresh)) == leaves_of(map, s),
    decreases s.len(),
{
    if s.len() < 2 {
        // nothing to merge
    } else if s[0] == left && s[1] == right {
        let rest = s.subrange(2, s.len() as int);
        lemma_merge_pair_keeps_leaves(map, seq![fresh] + rest, left, right, fresh);
        lemma_leaves_of_concat(map, seq![fresh], rest);
        lemma_leaves_of_one(map, fresh);
        assert(s == seq![left] + (seq![right] + rest));
        lemma_leaves_of_concat(map, seq![left], seq![right] + rest);
        lemma_leaves_of_concat(map, seq![right], rest);
        lemma_leaves_of_one(map, left);
        lemma_leaves_of_one(map, right);
    } else {
        let rest = s.drop_first();
        lemma_merge_pair_keeps_leaves(map, rest, left, right, fresh);
        assert(s == seq![s[0]] + rest);
        lemma_leaves_of_concat(map, seq![s[0]], rest);
        lemma_leaves_of_concat(map, seq![s[0]], merge_pair(rest, left, right, fresh));
    }
}

/// Runs one pass of [`merge_pair`] over `chunk`, in place.
pub fn merge_chunk(chunk: &mut Vec<u32>, left: u32, right: u32, fresh: u32)
    ensures
        final(chunk)@ == merge_pair(old(chunk)@, left, right, fresh),
{
    let n: usize = chunk.len();
    if n < 2 {
        return ;
    }
    let ghost input = chunk@;
    let mut head: u32 = chunk[0];
    let mut kept: usize = 0;
    let mut i: usize = 1;
    proof {
        assert(seq![head] + input.subrange(1, n as int) == input);
    }
    while i < n
        invariant
            n == chunk.len(),
            n == input.len(),
            kept < i <= n,
            forall|j: int| i <= j < n ==> chunk[j] == input[j],
            merge_pair(input, left, right, fresh) == chunk@.take(kept as int) + merge_pair(
                seq![head] + input.subrange(i as int, n as int),
                left,
                right,
                fresh,
            ),
        decreases n - i,
    {
        let next: u32 = chunk[i];
        proof {
            let scanned = seq![head] + input.subrange(i as int, n as int);
            assert(scanned.subrange(2, scanned.len() as int) == input.subrange(i + 1, n as int));
            assert(scanned.drop_first() == seq![next] + input.subrange(i + 1, n as int));
        }
        if head == left && next == right {
            head = fresh;
        } else {
            chunk[kept] = head;
            kept = kept + 1;
            head = next;
        }
        i = i + 1;
    }
    chunk[kept] = head;
    chunk.truncate(kept + 1);
}

/// Every chunk after one pass of [`merge_pair`]; chunks stay apart.
pub open spec fn merge_all(chunks: Seq<Seq<u32>>, left: u32, right: u32, fresh: u32) -> Seq<
    Seq<u32>,
> {
    Seq::new(chunks.len(), |i: int| merge_pair(chunks[i], left, right, fresh))
}

/// Runs one pass of [`merge_pair`] over every chunk, in place.
pub fn merge_chunks(chunks: &mut Vec<Vec<u32>>, left: u32, right: u32, fresh: u32)
    ensures
        final(chunks).deep_view() == merge_all(old(chunks).deep_view(), left, right, fresh),
{
    broadcast use lemma_symbols_deep_view;

    let n: usize = chunks.len();
    let mut i: usize = 0;
    while i < n
        invariant
            n == chunks.len(),
            n == old(chunks).len(),
            i <= n,
            forall|j: int|
                0 <= j < i ==> chunks[j]@ == merge_pair(old(chunks)[j]@, left, right, fresh),
            forall|j: int| i <= j < n ==> chunks[j] == old(chunks)[j],
        decreases n - i,
    {
        merge_chunk(&mut chunks[i], left, right, fresh);
        i = i + 1;
    }
}

} // verus!
