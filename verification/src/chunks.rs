//! Chunks as sequences of symbols.

use crate::unicode::lemma_encode_concat;
use vstd::prelude::*;
use vstd::utf8::*;

verus! {

/// A vector of symbols holds plain values: its deep view is its view.
pub broadcast proof fn lemma_symbols_deep_view(symbols: Vec<u32>)
    ensures
        #[trigger] symbols.deep_view() == symbols@,
{
}

/// The bytes of a chunk, each as a symbol.
pub open spec fn symbols_of(chunk: Seq<char>) -> Seq<u32> {
    Seq::new(encode_utf8(chunk).len(), |i: int| encode_utf8(chunk)[i] as u32)
}

/// The symbols of each chunk.
pub open spec fn chunk_symbols(chunks: Seq<Seq<char>>) -> Seq<Seq<u32>> {
    Seq::new(chunks.len(), |i: int| symbols_of(chunks[i]))
}

/// The number of symbols in the first `n` chunks.
pub open spec fn total_len(chunks: Seq<Seq<u32>>, n: int) -> nat
    decreases n,
{
    if n <= 0 {
        0
    } else {
        total_len(chunks, n - 1) + chunks[n - 1].len()
    }
}

/// Whether every symbol of every chunk is below `bound`.
pub open spec fn symbols_below(chunks: Seq<Seq<u32>>, bound: int) -> bool {
    forall|i: int, j: int|
        0 <= i < chunks.len() && 0 <= j < chunks[i].len() ==> (#[trigger] chunks[i][j]) < bound
}

/// The symbols of chunks of text are bytes, and there are as many of them
/// as the chunks side by side have bytes.
pub proof fn lemma_chunk_symbols_are_bytes(chunks: Seq<Seq<char>>, n: int)
    requires
        0 <= n <= chunks.len(),
    ensures
        symbols_below(chunk_symbols(chunks), 256),
        total_len(chunk_symbols(chunks), n) == encode_utf8(chunks.take(n).flatten()).len(),
    decreases n,
{
    if n > 0 {
        lemma_chunk_symbols_are_bytes(chunks, n - 1);
        assert(chunks.take(n) == chunks.take(n - 1).push(chunks[n - 1]));
        chunks.take(n - 1).lemma_flatten_push(chunks[n - 1]);
        lemma_encode_concat(chunks.take(n - 1).flatten(), chunks[n - 1]);
    }
}

/// The bytes of each chunk as symbols.
pub fn to_symbols(chunks: &Vec<String>) -> (symbols: Vec<Vec<u32>>)
    ensures
        symbols.deep_view() == chunk_symbols(chunks.deep_view()),
{
    broadcast use lemma_symbols_deep_view;

    let mut symbols: Vec<Vec<u32>> = Vec::new();
    let mut i: usize = 0;
    while i < chunks.len()
        invariant
            i <= chunks.len(),
            symbols.len() == i,
            forall|j: int| 0 <= j < i ==> symbols[j]@ == symbols_of(chunks[j]@),
        decreases chunks.len() - i,
    {
        let bytes = chunks[i].as_str().as_bytes();
        let mut chunk: Vec<u32> = Vec::new();
        let mut k: usize = 0;
        while k < bytes.len()
            invariant
                k <= bytes.len(),
                chunk.len() == k,
                forall|j: int| 0 <= j < k ==> chunk[j] == bytes[j] as u32,
            decreases bytes.len() - k,
        {
            chunk.push(bytes[k] as u32);
            k = k + 1;
        }
        symbols.push(chunk);
        i = i + 1;
    }
    symbols
}

/// The chunks side by side, in order.
pub fn concat_chunks(chunks: &Vec<Vec<u32>>) -> (all: Vec<u32>)
    ensures
        all@ == chunks.deep_view().flatten(),
{
    broadcast use lemma_symbols_deep_view;

    let ghost views = chunks.deep_view();
    let mut all: Vec<u32> = Vec::new();
    let mut i: usize = 0;
    while i < chunks.len()
        invariant
            views == chunks.deep_view(),
            i <= chunks.len(),
            all@ == views.take(i as int).flatten(),
        decreases chunks.len() - i,
    {
        let chunk = &chunks[i];
        let ghost before = all@;
        let mut k: usize = 0;
        while k < chunk.len()
            invariant
                k <= chunk.len(),
                all@ == before + chunk@.take(k as int),
            decreases chunk.len() - k,
        {
            all.push(chunk[k]);
            k = k + 1;
        }
        proof {
            assert(views.take(i + 1) == views.take(i as int).push(views[i as int]));
            views.take(i as int).lemma_flatten_push(views[i as int]);
        }
        i = i + 1;
    }
    proof {
        assert(views.take(chunks.len() as int) == views);
    }
    all
}

} // verus!
