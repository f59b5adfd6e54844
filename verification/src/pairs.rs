//! Counting adjacent pairs of symbols.

use crate::chunks::{lemma_symbols_deep_view, symbols_below, total_len};
use std::collections::HashMap;
use vstd::prelude::*;
use vstd::std_specs::iter::IteratorSpec;

verus! {

/// How many of the windows `(s[i], s[i + 1])` with `i < n` hold `pair`.
pub open spec fn count_windows(s: Seq<u32>, pair: (u32, u32), n: int) -> nat
    decreases n,
{
    if n <= 0 {
        0
    } else if s[n - 1] == pair.0 && s[n] == pair.1 {
        count_windows(s, pair, n - 1) + 1
    } else {
        count_windows(s, pair, n - 1)
    }
}

/// How often `pair` occurs in `s` as two adjacent symbols; windows that
/// overlap count each.
pub open spec fn pair_count(s: Seq<u32>, pair: (u32, u32)) -> nat {
    count_windows(s, pair, s.len() - 1)
}

/// The pairs that occur in `s`, each with its count.
pub open spec fn pair_count_map(s: Seq<u32>) -> Map<(u32, u32), nat> {
    Map::new(|pair: (u32, u32)| pair_count(s, pair) > 0, |pair: (u32, u32)| pair_count(s, pair))
}

/// How often `pair` occurs in the first `n` chunks, each counted by itself:
/// a pair that straddles two chunks is none.
pub open spec fn total_count(chunks: Seq<Seq<u32>>, pair: (u32, u32), n: int) -> nat
    decreases n,
{
    if n <= 0 {
        0
    } else {
        total_count(chunks, pair, n - 1) + pair_count(chunks[n - 1], pair)
    }
}

/// How often `pair` occurs in the chunks.
pub open spec fn chunk_pair_count(chunks: Seq<Seq<u32>>, pair: (u32, u32)) -> nat {
    total_count(chunks, pair, chunks.len() as int)
}

/// The pairs that occur in the chunks, each with its count.
pub open spec fn chunk_count_map(chunks: Seq<Seq<u32>>) -> Map<(u32, u32), nat> {
    Map::new(
        |pair: (u32, u32)| chunk_pair_count(chunks, pair) > 0,
        |pair: (u32, u32)| chunk_pair_count(chunks, pair),
    )
}

/// The count that `counts` holds for `pair`: zero where it holds none.
pub open spec fn count_in(counts: Map<(u32, u32), nat>, pair: (u32, u32)) -> nat {
    if counts.contains_key(pair) {
        counts[pair]
    } else {
        0
    }
}

/// `counts` with the pairs of `s` counted in.
pub open spec fn tallied(counts: Map<(u32, u32), nat>, s: Seq<u32>) -> Map<(u32, u32), nat> {
    Map::new(
        |pair: (u32, u32)| counts.contains_key(pair) || pair_count(s, pair) > 0,
        |pair: (u32, u32)| count_in(counts, pair) + pair_count(s, pair),
    )
}

/// The order on pairs: by the left symbol, then by the right one.
pub open spec fn pair_le(a: (u32, u32), b: (u32, u32)) -> bool {
    a.0 < b.0 || (a.0 == b.0 && a.1 <= b.1)
}

/// Whether `pair` is the one to merge under `counts`: it occurs at least
/// twice, no pair occurs more often, and of the pairs that occur as often
/// it is the greatest.
pub open spec fn best_in(counts: Map<(u32, u32), nat>, pair: (u32, u32)) -> bool {
    &&& count_in(counts, pair) >= 2
    &&& forall|other: (u32, u32)|
        count_in(counts, other) >= 2 ==> {
            ||| #[trigger] count_in(counts, other) < count_in(counts, pair)
            ||| count_in(counts, other) == count_in(counts, pair) && pair_le(other, pair)
        }
}

/// A pair as one integer, left symbol in the high half: the integers are
/// ordered as the pairs are.
pub open spec fn pack(pair: (u32, u32)) -> u64 {
    (pair.0 as int * 0x1_0000_0000 + pair.1 as int) as u64
}

/// Counting never goes down as more windows are looked at.
pub proof fn lemma_count_windows_grows(s: Seq<u32>, pair: (u32, u32), n: int, m: int)
    requires
        n <= m,
    ensures
        count_windows(s, pair, n) <= count_windows(s, pair, m),
    decreases m,
{
    if m > 0 && n < m {
        lemma_count_windows_grows(s, pair, n, m - 1);
    }
}

/// No pair occurs more often than there are windows.
pub proof fn lemma_count_windows_bound(s: Seq<u32>, pair: (u32, u32), n: int)
    ensures
        count_windows(s, pair, n) <= if n > 0 { n } else { 0 },
    decreases n,
{
    if n > 0 {
        lemma_count_windows_bound(s, pair, n - 1);
    }
}

/// A pair that was counted is made of symbols of the sequence: both are
/// below any bound that all its symbols are below.
pub proof fn lemma_counted_pair_below(s: Seq<u32>, pair: (u32, u32), n: int, bound: int)
    requires
        n < s.len(),
        forall|i: int| 0 <= i < s.len() ==> s[i] < bound,
        count_windows(s, pair, n) > 0,
    ensures
        pair.0 < bound,
        pair.1 < bound,
    decreases n,
{
    if n > 0 && !(s[n - 1] == pair.0 && s[n] == pair.1) {
        lemma_counted_pair_below(s, pair, n - 1, bound);
    }
}

/// A pair that was counted in chunks is made of symbols of one of them.
pub proof fn lemma_counted_pair_in_chunks(
    chunks: Seq<Seq<u32>>,
    pair: (u32, u32),
    n: int,
    bound: int,
)
    requires
        n <= chunks.len(),
        symbols_below(chunks, bound),
        total_count(chunks, pair, n) > 0,
    ensures
        pair.0 < bound,
        pair.1 < bound,
    decreases n,
{
    if n > 0 {
        if pair_count(chunks[n - 1], pair) > 0 {
            lemma_counted_pair_below(chunks[n - 1], pair, chunks[n - 1].len() - 1, bound);
        } else {
            lemma_counted_pair_in_chunks(chunks, pair, n - 1, bound);
        }
    }
}

/// The chunks looked at so far never hold more symbols than all of them.
pub proof fn lemma_total_len_grows(chunks: Seq<Seq<u32>>, n: int, m: int)
    requires
        n <= m,
    ensures
        total_len(chunks, n) <= total_len(chunks, m),
    decreases m,
{
    if m > 0 && n < m {
        lemma_total_len_grows(chunks, n, m - 1);
    }
}

/// No pair occurs more often in chunks than they hold symbols.
pub proof fn lemma_total_count_bound(chunks: Seq<Seq<u32>>, pair: (u32, u32), n: int)
    ensures
        total_count(chunks, pair, n) <= total_len(chunks, n),
    decreases n,
{
    if n > 0 {
        lemma_total_count_bound(chunks, pair, n - 1);
        lemma_count_windows_bound(chunks[n - 1], pair, chunks[n - 1].len() - 1);
    }
}

/// A table of pair counts.
pub struct PairCounts {
    table: HashMap<u64, usize>,
}

impl View for PairCounts {
    type V = Map<(u32, u32), nat>;

    closed spec fn view(&self) -> Map<(u32, u32), nat> {
        Map::new(
            |pair: (u32, u32)| self.table@.contains_key(pack(pair)),
            |pair: (u32, u32)| self.table@[pack(pair)] as nat,
        )
    }
}

/// The pair `(left, right)` as one integer.
fn pack_pair(left: u32, right: u32) -> (key: u64)
    ensures
        key == pack((left, right)),
{
    (left as u64) * 0x1_0000_0000 + (right as u64)
}

/// The pair that `key` stands for.
fn unpack_pair(key: u64) -> (pair: (u32, u32))
    ensures
        pack(pair) == key,
{
    ((key / 0x1_0000_0000) as u32, (key % 0x1_0000_0000) as u32)
}

impl PairCounts {
    /// The table holds as many pairs as it holds keys.
    proof fn lemma_dom_len(&self)
        ensures
            self@.dom().finite(),
            self@.dom().len() == self.table@.dom().len(),
    {
        let keys = self.table@.dom();
        let pairs = self@.dom();
        let unpack = |key: u64| ((key / 0x1_0000_0000) as u32, (key % 0x1_0000_0000) as u32);
        assert(keys.map(unpack) =~= pairs);
        vstd::set_lib::lemma_map_size(keys, pairs, unpack);
    }

    /// A table that holds no pair.
    pub fn new() -> (counts: PairCounts)
        ensures
            counts@ == Map::<(u32, u32), nat>::empty(),
    {
        PairCounts { table: HashMap::new() }
    }

    /// The count of the pair `(left, right)`, zero where it was never seen.
    pub fn get(&self, left: u32, right: u32) -> (count: usize)
        ensures
            count == count_in(self@, (left, right)),
    {
        match self.table.get(&pack_pair(left, right)) {
            Some(count) => *count,
            None => 0,
        }
    }

    /// The number of pairs in the table.
    pub fn len(&self) -> (n: usize)
        ensures
            n == self@.dom().len(),
    {
        proof {
            self.lemma_dom_len();
        }
        self.table.len()
    }

    /// Counts the pairs of `chunk` into the table.
    pub fn tally(&mut self, chunk: &Vec<u32>)
        requires
            forall|pair: (u32, u32)|
                count_in(old(self)@, pair) + #[trigger] pair_count(chunk@, pair) <= usize::MAX,
        ensures
            final(self)@ == tallied(old(self)@, chunk@),
    {
        let ghost before = self@;
        let ghost s = chunk@;
        if chunk.len() < 2 {
            return ;
        }
        let last: usize = chunk.len() - 1;
        let mut i: usize = 0;
        while i < last
            invariant
                s == chunk@,
                last == s.len() - 1,
                i <= last,
                forall|pair: (u32, u32)|
                    count_in(before, pair) + #[trigger] pair_count(s, pair) <= usize::MAX,
                forall|pair: (u32, u32)|
                    #![trigger self@.contains_key(pair)]
                    self@.contains_key(pair) <==> before.contains_key(pair) || count_windows(
                        s,
                        pair,
                        i as int,
                    ) > 0,
                forall|pair: (u32, u32)|
                    #![trigger count_in(self@, pair)]
                    count_in(self@, pair) == count_in(before, pair) + count_windows(
                        s,
                        pair,
                        i as int,
                    ),
            decreases last - i,
        {
            let left: u32 = chunk[i];
            let right: u32 = chunk[i + 1];
            let key: u64 = pack_pair(left, right);
            let ghost here = self@;
            let seen: usize = match self.table.get(&key) {
                Some(count) => *count,
                None => 0,
            };
            proof {
                assert(seen == count_in(here, (left, right)));
                lemma_count_windows_grows(s, (left, right), i + 1, last as int);
                assert(count_in(before, (left, right)) + pair_count(s, (left, right))
                    <= usize::MAX);
            }
            self.table.insert(key, seen + 1);
            proof {
                assert forall|pair: (u32, u32)|
                    #![trigger self@.contains_key(pair)]
                    self@.contains_key(pair) <==> before.contains_key(pair) || count_windows(
                        s,
                        pair,
                        i + 1,
                    ) > 0 by {
                    assert(here.contains_key(pair) <==> before.contains_key(pair) || count_windows(
                        s,
                        pair,
                        i as int,
                    ) > 0);
                    if pair != (left, right) {
                    }
                }
                assert forall|pair: (u32, u32)|
                    #![trigger count_in(self@, pair)]
                    count_in(self@, pair) == count_in(before, pair) + count_windows(
                        s,
                        pair,
                        i + 1,
                    ) by {
                    assert(count_in(here, pair) == count_in(before, pair) + count_windows(
                        s,
                        pair,
                        i as int,
                    ));
                    if pair != (left, right) {
                    }
                }
            }
            i = i + 1;
        }
        proof {
            assert forall|pair: (u32, u32)| self@.contains_key(pair) implies self@[pair]
                == tallied(before, s)[pair] by {
                assert(count_in(self@, pair) == count_in(before, pair) + count_windows(
                    s,
                    pair,
                    last as int,
                ));
            }
        }
    }

    /// The pair to merge, with its count: of the pairs that occur at least
    /// twice the most frequent one, and of those that tie the greatest.
    /// `None` where no pair occurs twice.
    pub fn best(&self) -> (found: Option<((u32, u32), usize)>)
        ensures
            match found {
                Some((pair, count)) => best_in(self@, pair) && count == count_in(self@, pair),
                None => forall|pair: (u32, u32)| count_in(self@, pair) < 2,
            },
    {
        let mut found: bool = false;
        let mut best_key: u64 = 0;
        let mut best_count: usize = 0;
        for (key, count) in it: self.table.iter()
            invariant
                it.seq() == self.table.iter().remaining(),
                found ==> self.table@.contains_key(best_key) && self.table@[best_key] == best_count
                    && best_count >= 2,
                forall|j: int|
                    0 <= j < it.index() && *it.seq()[j].1 >= 2 ==> found && (*it.seq()[j].1
                        < best_count || (*it.seq()[j].1 == best_count && *it.seq()[j].0
                        <= best_key)),
        {
            if *count >= 2 && (!found || *count > best_count || (*count == best_count && *key
                > best_key)) {
                found = true;
                best_key = *key;
                best_count = *count;
            }
        }
        if found {
            Some((unpack_pair(best_key), best_count))
        } else {
            None
        }
    }
}

/// Counts the adjacent pairs of `input_vec`: every window of two symbols
/// once, overlapping windows each.
pub fn pair_counts(input_vec: &Vec<u32>) -> (counts: PairCounts)
    ensures
        counts@ == pair_count_map(input_vec@),
{
    let mut counts = PairCounts::new();
    proof {
        assert forall|pair: (u32, u32)|
            count_in(counts@, pair) + #[trigger] pair_count(input_vec@, pair) <= usize::MAX by {
            lemma_count_windows_bound(input_vec@, pair, input_vec.len() - 1);
        }
    }
    counts.tally(input_vec);
    counts
}

/// Counts the adjacent pairs of all chunks into one table, each chunk by
/// itself.
pub fn count_pairs(chunks: &Vec<Vec<u32>>) -> (counts: PairCounts)
    requires
        total_len(chunks.deep_view(), chunks.len() as int) <= usize::MAX,
    ensures
        counts@ == chunk_count_map(chunks.deep_view()),
{
    broadcast use lemma_symbols_deep_view;

    let ghost views = chunks.deep_view();
    let mut counts = PairCounts::new();
    let mut k: usize = 0;
    while k < chunks.len()
        invariant
            views == chunks.deep_view(),
            k <= chunks.len(),
            total_len(views, chunks.len() as int) <= usize::MAX,
            forall|pair: (u32, u32)|
                #![trigger counts@.contains_key(pair)]
                counts@.contains_key(pair) <==> total_count(views, pair, k as int) > 0,
            forall|pair: (u32, u32)|
                #[trigger] count_in(counts@, pair) == total_count(views, pair, k as int),
        decreases chunks.len() - k,
    {
        proof {
            assert(views[k as int] == chunks[k as int]@);
            assert forall|pair: (u32, u32)|
                count_in(counts@, pair) + #[trigger] pair_count(chunks[k as int]@, pair)
                    <= usize::MAX by {
                lemma_total_count_bound(views, pair, k + 1);
                lemma_total_len_grows(views, k + 1, chunks.len() as int);
            }
        }
        counts.tally(&chunks[k]);
        k = k + 1;
    }
    proof {
        assert forall|pair: (u32, u32)| counts@.contains_key(pair) implies counts@[pair]
            == chunk_pair_count(views, pair) by {
            assert(count_in(counts@, pair) == total_count(views, pair, k as int));
        }
    }
    counts
}

} // verus!
