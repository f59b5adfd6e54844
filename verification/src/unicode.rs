//! Facts about UTF-8 that the chunker and the codec share.

use vstd::prelude::*;
use vstd::utf8::*;

verus! {

/// Encoding goes character by character, so it splits over concatenation.
pub proof fn lemma_encode_concat(a: Seq<char>, b: Seq<char>)
    ensures
        encode_utf8(a + b) == encode_utf8(a) + encode_utf8(b),
    decreases a.len(),
{
    if a.len() > 0 {
        assert((a + b).drop_first() == a.drop_first() + b);
        lemma_encode_concat(a.drop_first(), b);
    }
}

/// Two valid encodings side by side decode to the two texts side by side.
pub proof fn lemma_decode_concat(a: Seq<u8>, b: Seq<u8>)
    requires
        valid_utf8(a),
        valid_utf8(b),
    ensures
        valid_utf8(a + b),
        decode_utf8(a + b) == decode_utf8(a) + decode_utf8(b),
{
    let ca = decode_utf8(a);
    let cb = decode_utf8(b);
    decode_utf8_encode_utf8(a);
    decode_utf8_encode_utf8(b);
    lemma_encode_concat(ca, cb);
    encode_utf8_decode_utf8(ca + cb);
    valid_utf8_concat(a, b);
}

/// A character boundary of a text is one of each prefix that reaches it.
pub proof fn lemma_boundary_in_prefix(bytes: Seq<u8>, at: int, end: int)
    requires
        valid_utf8(bytes),
        0 <= at <= end <= bytes.len(),
        is_char_boundary(bytes, at),
        is_char_boundary(bytes, end),
    ensures
        valid_utf8(bytes.subrange(0, end)),
        is_char_boundary(bytes.subrange(0, end), at),
{
    let head = bytes.subrange(0, end);
    valid_utf8_split(bytes, end);
    if at < end {
        is_char_boundary_iff_not_is_continuation_byte(bytes, at);
        is_char_boundary_iff_not_is_continuation_byte(head, at);
    } else {
        is_char_boundary_start_end_of_seq(head);
    }
}

/// The bytes between two character boundaries are a valid encoding.
pub proof fn lemma_valid_between(bytes: Seq<u8>, from: int, to: int)
    requires
        valid_utf8(bytes),
        0 <= from <= to <= bytes.len(),
        is_char_boundary(bytes, from),
        is_char_boundary(bytes, to),
    ensures
        valid_utf8(bytes.subrange(from, to)),
{
    lemma_boundary_in_prefix(bytes, from, to);
    let head = bytes.subrange(0, to);
    valid_utf8_split(head, from);
    assert(head.subrange(from, head.len() as int) == bytes.subrange(from, to));
}

/// Decoding piece by piece is decoding the whole, where each piece is valid.
pub proof fn lemma_decode_flatten(pieces: Seq<Seq<u8>>)
    requires
        forall|i: int| 0 <= i < pieces.len() ==> valid_utf8(#[trigger] pieces[i]),
    ensures
        valid_utf8(pieces.flatten()),
        pieces.map_values(|piece: Seq<u8>| decode_utf8(piece)).flatten() == decode_utf8(
            pieces.flatten(),
        ),
    decreases pieces.len(),
{
    let texts = pieces.map_values(|piece: Seq<u8>| decode_utf8(piece));
    if pieces.len() > 0 {
        let rest = pieces.drop_first();
        lemma_decode_flatten(rest);
        lemma_decode_concat(pieces[0], rest.flatten());
        assert(texts.drop_first() == rest.map_values(|piece: Seq<u8>| decode_utf8(piece)));
    }
}

} // verus!
