//! The trained model: merge rules in the order they were minted, and the
//! map from each minted symbol back to the pair it stands for.

use std::collections::HashMap;
use vstd::prelude::*;

verus! {

/// A trained vocabulary. Symbols below 256 are raw bytes; each symbol from
/// 256 on was minted for a pair of earlier symbols.
pub struct Vocabulary {
    /// From a minted symbol to the pair it replaced, for decoding.
    pub vocab_hash: HashMap<u32, (u32, u32)>,
    /// The merge rules `(pair, symbol)` in mint order, for encoding.
    pub vocab_vec: Vec<((u32, u32), u32)>,
}

/// Every rule mints a symbol from 256 on that is greater than both symbols
/// of its pair, and later rules mint greater symbols.
pub open spec fn merges_well_formed(merges: Seq<((u32, u32), u32)>) -> bool {
    &&& forall|i: int|
        0 <= i < merges.len() ==> {
            &&& (#[trigger] merges[i]).1 >= 256
            &&& merges[i].0.0 < merges[i].1
            &&& merges[i].0.1 < merges[i].1
        }
    &&& forall|i: int, j: int|
        0 <= i < j < merges.len() ==> (#[trigger] merges[i]).1 < (#[trigger] merges[j]).1
}

/// The map from each minted symbol to its pair.
pub open spec fn reverse_map(merges: Seq<((u32, u32), u32)>) -> Map<u32, (u32, u32)>
    decreases merges.len(),
{
    if merges.len() == 0 {
        Map::empty()
    } else {
        reverse_map(merges.drop_last()).insert(merges.last().1, merges.last().0)
    }
}

/// Whether `symbol` stands for a pair of smaller symbols in `map`.
pub open spec fn expandable(map: Map<u32, (u32, u32)>, symbol: u32) -> bool {
    &&& symbol > 255
    &&& map.contains_key(symbol)
    &&& map[symbol].0 < symbol
    &&& map[symbol].1 < symbol
}

/// The symbols that `symbol` unfolds to once nothing in it can be expanded.
pub open spec fn leaves(map: Map<u32, (u32, u32)>, symbol: u32) -> Seq<u32>
    decreases symbol,
{
    if expandable(map, symbol) {
        leaves(map, map[symbol].0) + leaves(map, map[symbol].1)
    } else {
        seq![symbol]
    }
}

/// The leaves of each symbol of a sequence, side by side.
pub open spec fn leaves_of(map: Map<u32, (u32, u32)>, symbols: Seq<u32>) -> Seq<u32>
    decreases symbols.len(),
{
    if symbols.len() == 0 {
        Seq::empty()
    } else {
        leaves_of(map, symbols.drop_last()) + leaves(map, symbols.last())
    }
}

/// The symbols that are raw bytes, as bytes; all others are left out.
pub open spec fn raw_bytes(symbols: Seq<u32>) -> Seq<u8>
    decreases symbols.len(),
{
    if symbols.len() == 0 {
        Seq::empty()
    } else if symbols.last() <= 255 {
        raw_bytes(symbols.drop_last()).push(symbols.last() as u8)
    } else {
        raw_bytes(symbols.drop_last())
    }
}

/// The bytes that a word unfolds to; a symbol that is neither a byte nor
/// expandable contributes nothing.
pub open spec fn expand_bytes_spec(map: Map<u32, (u32, u32)>, word: Seq<u32>) -> Seq<u8> {
    raw_bytes(leaves_of(map, word))
}

/// The leaves of two sequences side by side are their leaves side by side.
pub proof fn lemma_leaves_of_concat(map: Map<u32, (u32, u32)>, a: Seq<u32>, b: Seq<u32>)
    ensures
        leaves_of(map, a + b) == leaves_of(map, a) + leaves_of(map, b),
    decreases b.len(),
{
    if b.len() > 0 {
        assert((a + b).drop_last() == a + b.drop_last());
        lemma_leaves_of_concat(map, a, b.drop_last());
    }
}

/// A sequence of one symbol has the leaves of that symbol.
pub proof fn lemma_leaves_of_one(map: Map<u32, (u32, u32)>, symbol: u32)
    ensures
        leaves_of(map, seq![symbol]) == leaves(map, symbol),
{
    assert(seq![symbol].drop_last() == Seq::<u32>::empty());
    assert(leaves_of(map, Seq::<u32>::empty()) == Seq::<u32>::empty());
}

/// Raw bytes unfold to themselves.
pub proof fn lemma_leaves_of_bytes(map: Map<u32, (u32, u32)>, symbols: Seq<u32>)
    requires
        forall|i: int| 0 <= i < symbols.len() ==> symbols[i] < 256,
    ensures
        leaves_of(map, symbols) == symbols,
    decreases symbols.len(),
{
    if symbols.len() > 0 {
        lemma_leaves_of_bytes(map, symbols.drop_last());
    }
}

/// In a well-formed rule list every minted symbol maps back to its pair.
pub proof fn lemma_reverse_map_holds(merges: Seq<((u32, u32), u32)>, i: int)
    requires
        merges_well_formed(merges),
        0 <= i < merges.len(),
    ensures
        reverse_map(merges).contains_key(merges[i].1),
        reverse_map(merges)[merges[i].1] == merges[i].0,
        expandable(reverse_map(merges), merges[i].1),
    decreases merges.len(),
{
    if i < merges.len() - 1 {
        lemma_reverse_map_holds(merges.drop_last(), i);
    }
}

/// The number of steps that unfolding `symbol` takes: one for the symbol
/// and those for the two symbols of its pair, if it stands for one.
pub open spec fn unfold_steps(map: Map<u32, (u32, u32)>, symbol: u32) -> nat
    decreases symbol,
{
    if expandable(map, symbol) {
        1 + unfold_steps(map, map[symbol].0) + unfold_steps(map, map[symbol].1)
    } else {
        1
    }
}

/// The steps that the symbols waiting on a stack take, all told.
pub open spec fn pending_steps(map: Map<u32, (u32, u32)>, stack: Seq<u32>) -> nat
    decreases stack.len(),
{
    if stack.len() == 0 {
        0
    } else {
        pending_steps(map, stack.drop_last()) + unfold_steps(map, stack.last())
    }
}

/// The leaves that the symbols waiting on a stack unfold to, the top of the
/// stack first.
pub open spec fn pending_leaves(map: Map<u32, (u32, u32)>, stack: Seq<u32>) -> Seq<u32>
    decreases stack.len(),
{
    if stack.len() == 0 {
        Seq::empty()
    } else {
        leaves(map, stack.last()) + pending_leaves(map, stack.drop_last())
    }
}

/// What one more symbol on a stack adds to its leaves and its steps.
proof fn lemma_pending_push(map: Map<u32, (u32, u32)>, stack: Seq<u32>, symbol: u32)
    ensures
        pending_leaves(map, stack.push(symbol)) == leaves(map, symbol) + pending_leaves(
            map,
            stack,
        ),
        pending_steps(map, stack.push(symbol)) == pending_steps(map, stack) + unfold_steps(
            map,
            symbol,
        ),
{
    assert(stack.push(symbol).drop_last() == stack);
}

/// Appends the leaves of `symbol` to `out`. Symbols that wait to be unfolded
/// are kept on a stack of their own, so that a deep vocabulary costs memory
/// and no call depth.
pub fn expand_symbol(map: &HashMap<u32, (u32, u32)>, symbol: u32, out: &mut Vec<u32>)
    ensures
        final(out)@ == old(out)@ + leaves(map@, symbol),
{
    let ghost start = out@;
    let mut stack: Vec<u32> = Vec::new();
    stack.push(symbol);
    proof {
        lemma_pending_push(map@, Seq::<u32>::empty(), symbol);
    }
    while stack.len() > 0
        invariant
            start + leaves(map@, symbol) == out@ + pending_leaves(map@, stack@),
        decreases pending_steps(map@, stack@),
    {
        let ghost below = stack@.drop_last();
        let top: u32 = stack.pop().unwrap();
        proof {
            lemma_pending_push(map@, below, top);
        }
        let mut pair: Option<(u32, u32)> = None;
        if top > 255 {
            if let Some(found) = map.get(&top) {
                if found.0 < top && found.1 < top {
                    pair = Some(*found);
                }
            }
        }
        match pair {
            Some((left, right)) => {
                stack.push(right);
                stack.push(left);
                proof {
                    lemma_pending_push(map@, below, right);
                    lemma_pending_push(map@, below.push(right), left);
                }
            },
            None => {
                out.push(top);
            },
        }
    }
}

/// The leaves of each symbol of `symbols`, in order.
pub fn expand_symbols(map: &HashMap<u32, (u32, u32)>, symbols: &[u32]) -> (out: Vec<u32>)
    ensures
        out@ == leaves_of(map@, symbols@),
{
    let mut out: Vec<u32> = Vec::new();
    let mut i: usize = 0;
    while i < symbols.len()
        invariant
            i <= symbols.len(),
            out@ == leaves_of(map@, symbols@.take(i as int)),
        decreases symbols.len() - i,
    {
        proof {
            assert(symbols@.take(i + 1).drop_last() == symbols@.take(i as int));
        }
        expand_symbol(map, symbols[i], &mut out);
        i = i + 1;
    }
    proof {
        assert(symbols@.take(symbols.len() as int) == symbols@);
    }
    out
}

/// `String::push` appends the character to the end of the string.
pub assume_specification[ String::push ](text: &mut String, c: char)
    ensures
        final(text)@ == old(text)@.push(c),
;

/// A byte that is shown as the character it is: printable ASCII.
pub open spec fn is_plain(byte: u8) -> bool {
    0x20 <= byte < 0x7F
}

/// The lower-case hexadecimal digit for a value below 16.
pub open spec fn hex_digit_spec(value: u8) -> char {
    if value < 10 {
        (0x30 + value) as char
    } else {
        (0x57 + value) as char
    }
}

/// The escape for a control byte: a backslash, `u`, and the byte's value as
/// four hexadecimal digits.
pub open spec fn escape(byte: u8) -> Seq<char> {
    seq!['\\', 'u', '0', '0', hex_digit_spec(byte / 16), hex_digit_spec(byte % 16)]
}

/// What byte `i` adds to the rendering. A plain byte is itself. Of a run of
/// bytes that are not plain only the first shows: as its escape if it is a
/// control byte, as the replacement character otherwise.
pub open spec fn render_at(bytes: Seq<u8>, i: int) -> Seq<char> {
    if is_plain(bytes[i]) {
        seq![bytes[i] as char]
    } else if i > 0 && !is_plain(bytes[i - 1]) {
        Seq::empty()
    } else if bytes[i] < 0x20 || bytes[i] == 0x7F {
        escape(bytes[i])
    } else {
        seq!['\u{FFFD}']
    }
}

/// The rendering of the first `n` bytes.
pub open spec fn render_first(bytes: Seq<u8>, n: int) -> Seq<char>
    decreases n,
{
    if n <= 0 {
        Seq::empty()
    } else {
        render_first(bytes, n - 1) + render_at(bytes, n - 1)
    }
}

/// The readable form of a byte string.
pub open spec fn render(bytes: Seq<u8>) -> Seq<char> {
    render_first(bytes, bytes.len() as int)
}

/// The lower-case hexadecimal digit for `value`.
fn hex_digit(value: u8) -> (digit: char)
    requires
        value < 16,
    ensures
        digit == hex_digit_spec(value),
{
    if value < 10 {
        (0x30 + value) as char
    } else {
        (0x57 + value) as char
    }
}

/// Renders `bytes` for a reader, as [`render`] says.
pub fn render_bytes(bytes: &[u8]) -> (text: String)
    ensures
        text@ == render(bytes@),
{
    let mut text: String = String::new();
    let mut last_was_marked: bool = false;
    let mut i: usize = 0;
    while i < bytes.len()
        invariant
            i <= bytes.len(),
            last_was_marked == (i > 0 && !is_plain(bytes@[i - 1])),
            text@ == render_first(bytes@, i as int),
        decreases bytes.len() - i,
    {
        let byte: u8 = bytes[i];
        if byte < 0x20 || byte == 0x7F {
            if !last_was_marked {
                text.push('\\');
                text.push('u');
                text.push('0');
                text.push('0');
                text.push(hex_digit(byte / 16));
                text.push(hex_digit(byte % 16));
            }
            last_was_marked = true;
        } else if byte < 0x7F {
            text.push(byte as char);
            last_was_marked = false;
        } else {
            if !last_was_marked {
                text.push('\u{FFFD}');
            }
            last_was_marked = true;
        }
        i = i + 1;
    }
    text
}

impl Vocabulary {
    /// The invariant of a vocabulary: its rules are well formed and its map
    /// is the reverse of its rule list.
    pub open spec fn wf(&self) -> bool {
        &&& merges_well_formed(self.vocab_vec@)
        &&& self.vocab_hash@ == reverse_map(self.vocab_vec@)
    }

    /// The bytes that `bytes`, a word of symbols, stands for.
    pub fn expand_bytes(&self, bytes: &[u32]) -> (expanded: Vec<u8>)
        ensures
            expanded@ == expand_bytes_spec(self.vocab_hash@, bytes@),
    {
        let unfolded = expand_symbols(&self.vocab_hash, bytes);
        let mut expanded: Vec<u8> = Vec::new();
        let mut i: usize = 0;
        while i < unfolded.len()
            invariant
                i <= unfolded.len(),
                expanded@ == raw_bytes(unfolded@.take(i as int)),
            decreases unfolded.len() - i,
        {
            proof {
                assert(unfolded@.take(i + 1).drop_last() == unfolded@.take(i as int));
            }
            let symbol: u32 = unfolded[i];
            if symbol <= 255 {
                expanded.push(symbol as u8);
            }
            i = i + 1;
        }
        proof {
            assert(unfolded@.take(unfolded.len() as int) == unfolded@);
        }
        expanded
    }

    /// The readable form of a word of symbols: its bytes, with control bytes
    /// escaped and bytes beyond ASCII replaced, each run of such bytes shown
    /// once.
    pub fn stringify_word(&self, bytes: &[u32]) -> (text: String)
        ensures
            text@ == render(expand_bytes_spec(self.vocab_hash@, bytes@)),
    {
        let expanded = self.expand_bytes(bytes);
        render_bytes(expanded.as_slice())
    }
}

} // verus!
