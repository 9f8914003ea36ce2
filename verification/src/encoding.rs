//! How scalar values are laid out on the wire, and the proof that the decoder
//! reads back what was laid out.

use crate::decoder::{value_at, x_key, y_key, Decoding};
use crate::reader::{
    le_u32, length_at, marker_at, marker_of, padding, string_body_at, word_at, ErrorKind, Read,
    Type,
};
use crate::value::{Note, Tree};
use vstd::prelude::*;
use vstd::utf8::*;

verus! {

/// The first byte of the marker of a kind.
pub open spec fn code(ty: Type) -> u8 {
    match ty {
        Type::Bool => 0x01,
        Type::Int => 0x02,
        Type::Unknown3 => 0x03,
        Type::String => 0x04,
        Type::Coordinates => 0x05,
        Type::Reference => 0x12,
        Type::Object => 0x14,
        Type::Array => 0x15,
    }
}

/// The marker of a kind.
pub open spec fn marker_word(ty: Type) -> Seq<u8> {
    seq![code(ty), 0u8, 0u8, 0u8]
}

/// The four bytes of a number, lowest first.
pub open spec fn le_bytes(n: u32) -> Seq<u8> {
    seq![
        (n % 256) as u8,
        (n / 256 % 256) as u8,
        (n / 65536 % 256) as u8,
        (n / 16777216) as u8,
    ]
}

/// A boolean on the wire.
pub open spec fn bool_bytes(b: bool) -> Seq<u8> {
    marker_word(Type::Bool) + seq![if b { 1u8 } else { 0u8 }, 0u8, 0u8, 0u8]
}

/// An integer on the wire.
pub open spec fn int_bytes(n: u32) -> Seq<u8> {
    marker_word(Type::Int) + le_bytes(n)
}

/// A string on the wire, with `pad` for its padding.
pub open spec fn string_bytes(text: Seq<char>, pad: Seq<u8>) -> Seq<u8> {
    marker_word(Type::String) + le_bytes(encode_utf8(text).len() as u32) + encode_utf8(text) + pad
}

/// A marker names the kind that it was made for.
pub proof fn lemma_marker_round_trip(ty: Type)
    ensures
        marker_word(ty).len() == 4,
        marker_of(marker_word(ty)) == Ok::<Type, ErrorKind>(ty),
{
}

/// Four bytes laid out lowest first spell the number they were made from.
pub proof fn lemma_le_round_trip(n: u32)
    ensures
        le_bytes(n).len() == 4,
        le_u32(le_bytes(n)) == n,
{
}

/// The word at the end of `before` in `before + word + behind` is `word`.
proof fn lemma_word_between(before: Seq<u8>, word: Seq<u8>, behind: Seq<u8>)
    requires
        word.len() == 4,
    ensures
        word_at(before + word + behind, before.len()).outcome == Ok::<Seq<u8>, ErrorKind>(word),
        word_at(before + word + behind, before.len()).used == 4,
{
    let input = before + word + behind;
    assert(input.subrange(before.len() as int, before.len() + 4 as int) =~= word);
}

/// Decoding a boolean that was laid out gives that boolean, wherever it
/// stands and whatever follows it.
pub proof fn lemma_decode_bool(before: Seq<u8>, b: bool, behind: Seq<u8>, notes: Seq<Note>)
    ensures
        value_at(before + bool_bytes(b) + behind, before.len(), notes) == Decoding::done(
            Tree::Bool(b),
            8,
            notes,
        ),
{
    let payload = seq![if b { 1u8 } else { 0u8 }, 0u8, 0u8, 0u8];
    let input = before + bool_bytes(b) + behind;
    lemma_marker_round_trip(Type::Bool);
    assert(input =~= before + marker_word(Type::Bool) + (payload + behind));
    lemma_word_between(before, marker_word(Type::Bool), payload + behind);
    assert(input =~= (before + marker_word(Type::Bool)) + payload + behind);
    lemma_word_between(before + marker_word(Type::Bool), payload, behind);
}

/// A value that is marked as a boolean decodes to `false` where the first
/// byte of its payload is 0, to `true` where it is 1, and fails on any other
/// byte, which the failure names.
pub proof fn lemma_bool_payload(input: Seq<u8>, pos: nat, notes: Seq<Note>)
    requires
        pos + 8 <= input.len(),
        input.subrange(pos as int, pos + 4 as int) == marker_word(Type::Bool),
    ensures
        value_at(input, pos, notes) == if input[pos + 4 as int] == 0 {
            Decoding::done(Tree::Bool(false), 8, notes)
        } else if input[pos + 4 as int] == 1 {
            Decoding::done(Tree::Bool(true), 8, notes)
        } else {
            Decoding::failed(ErrorKind::InvalidBoolValue(input[pos + 4 as int]), 8, notes)
        },
{
    lemma_marker_round_trip(Type::Bool);
}

/// Decoding an integer that was laid out gives that integer, wherever it
/// stands and whatever follows it.
pub proof fn lemma_decode_int(before: Seq<u8>, n: u32, behind: Seq<u8>, notes: Seq<Note>)
    ensures
        value_at(before + int_bytes(n) + behind, before.len(), notes) == Decoding::done(
            Tree::Int(n),
            8,
            notes,
        ),
{
    let input = before + int_bytes(n) + behind;
    lemma_marker_round_trip(Type::Int);
    lemma_le_round_trip(n);
    assert(input =~= before + marker_word(Type::Int) + (le_bytes(n) + behind));
    lemma_word_between(before, marker_word(Type::Int), le_bytes(n) + behind);
    assert(input =~= (before + marker_word(Type::Int)) + le_bytes(n) + behind);
    lemma_word_between(before + marker_word(Type::Int), le_bytes(n), behind);
}

/// The body of a string whose length word, bytes and padding lie at `pos` is
/// read as the text that the bytes encode.
proof fn lemma_string_body(input: Seq<u8>, pos: nat, text: Seq<char>)
    requires
        encode_utf8(text).len() <= u32::MAX,
        pos + 4 + encode_utf8(text).len() + padding(encode_utf8(text).len()) <= input.len(),
        input.subrange(pos as int, pos + 4 as int) == le_bytes(encode_utf8(text).len() as u32),
        input.subrange(pos + 4 as int, pos + 4 + encode_utf8(text).len() as int) == encode_utf8(
            text,
        ),
    ensures
        string_body_at(input, pos) == (Read {
            outcome: Ok::<Seq<char>, ErrorKind>(text),
            used: 4 + encode_utf8(text).len() + padding(encode_utf8(text).len()),
        }),
{
    let bytes = encode_utf8(text);
    lemma_le_round_trip(bytes.len() as u32);
    assert(valid_utf8(bytes)) by {
        encode_utf8_valid_utf8(text);
    }
    assert(decode_utf8(bytes) == text) by {
        encode_utf8_decode_utf8(text);
    }
    let len = length_at(input, pos, Type::String);
    assert(len.outcome == Ok::<u32, ErrorKind>(bytes.len() as u32) && len.used == 4);
}

/// Decoding a string that was laid out gives that string, wherever it stands,
/// whatever its padding holds and whatever follows it.
pub proof fn lemma_decode_string(
    before: Seq<u8>,
    text: Seq<char>,
    pad: Seq<u8>,
    behind: Seq<u8>,
    notes: Seq<Note>,
)
    requires
        encode_utf8(text).len() <= u32::MAX,
        pad.len() == padding(encode_utf8(text).len()),
    ensures
        value_at(before + string_bytes(text, pad) + behind, before.len(), notes) == Decoding::done(
            Tree::Str(text),
            8 + encode_utf8(text).len() + pad.len(),
            notes,
        ),
{
    let bytes = encode_utf8(text);
    let len = le_bytes(bytes.len() as u32);
    let input = before + string_bytes(text, pad) + behind;
    let pos = before.len();
    lemma_marker_round_trip(Type::String);
    lemma_le_round_trip(bytes.len() as u32);
    assert(input.subrange(pos as int, pos + 4 as int) =~= marker_word(Type::String));
    assert(input.subrange(pos + 4 as int, pos + 8 as int) =~= len);
    assert(input.subrange(pos + 8 as int, pos + 8 + bytes.len() as int) =~= bytes);
    assert(marker_at(input, pos) == (Read {
        outcome: Ok::<Type, ErrorKind>(Type::String),
        used: 4,
    }));
    lemma_string_body(input, pos + 4, text);
}

/// A pair of coordinates on the wire, each number by its bits.
pub open spec fn coordinates_bytes(x: u32, y: u32) -> Seq<u8> {
    marker_word(Type::Coordinates) + le_bytes(x) + le_bytes(y)
}

/// A value of unknown meaning on the wire.
pub open spec fn unknown_bytes(raw: u32) -> Seq<u8> {
    marker_word(Type::Unknown3) + le_bytes(raw)
}

/// Decoding a pair of coordinates that was laid out gives an object of the
/// two numbers, under the names `x` and `y`.
pub proof fn lemma_decode_coordinates(
    before: Seq<u8>,
    x: u32,
    y: u32,
    behind: Seq<u8>,
    notes: Seq<Note>,
)
    ensures
        value_at(before + coordinates_bytes(x, y) + behind, before.len(), notes) == Decoding::done(
            Tree::Object(seq![(x_key(), Tree::Single(x)), (y_key(), Tree::Single(y))]),
            12,
            notes,
        ),
{
    let input = before + coordinates_bytes(x, y) + behind;
    let pos = before.len();
    lemma_marker_round_trip(Type::Coordinates);
    lemma_le_round_trip(x);
    lemma_le_round_trip(y);
    assert(input.subrange(pos as int, pos + 4 as int) =~= marker_word(Type::Coordinates));
    assert(input.subrange(pos + 4 as int, pos + 8 as int) =~= le_bytes(x));
    assert(input.subrange(pos + 8 as int, pos + 12 as int) =~= le_bytes(y));
}

/// Decoding a value of unknown meaning gives `Null`, and a remark that holds
/// what the value held.
pub proof fn lemma_decode_unknown(before: Seq<u8>, raw: u32, behind: Seq<u8>, notes: Seq<Note>)
    ensures
        value_at(before + unknown_bytes(raw) + behind, before.len(), notes) == Decoding::done(
            Tree::Null,
            8,
            notes.push(Note::Unknown3 { raw }),
        ),
{
    let input = before + unknown_bytes(raw) + behind;
    let pos = before.len();
    lemma_marker_round_trip(Type::Unknown3);
    lemma_le_round_trip(raw);
    assert(input.subrange(pos as int, pos + 4 as int) =~= marker_word(Type::Unknown3));
    assert(input.subrange(pos + 4 as int, pos + 8 as int) =~= le_bytes(raw));
}

/// Decoding a reference, which is a marker and nothing else, gives `Null` and
/// a remark.
pub proof fn lemma_decode_reference(before: Seq<u8>, behind: Seq<u8>, notes: Seq<Note>)
    ensures
        value_at(before + marker_word(Type::Reference) + behind, before.len(), notes)
            == Decoding::done(Tree::Null, 4, notes.push(Note::Reference)),
{
    let input = before + marker_word(Type::Reference) + behind;
    let pos = before.len();
    lemma_marker_round_trip(Type::Reference);
    assert(input.subrange(pos as int, pos + 4 as int) =~= marker_word(Type::Reference));
}

} // verus!
