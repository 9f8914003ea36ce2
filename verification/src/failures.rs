//! The inputs on which a read fails, and where it leaves the cursor.

use crate::decoder::{value_at, Decoding};
use crate::encoding::code;
use crate::reader::{
    le_u32, length_at, marker_at, string_body_at, word_at, ErrorKind, Read, Type, LENGTH_SENTINEL,
};
use crate::value::Note;
use vstd::prelude::*;
use vstd::utf8::*;

verus! {

/// Whether a byte is the first byte of the marker of some kind.
pub open spec fn is_code(byte: u8) -> bool {
    exists|ty: Type| code(ty) == byte
}

/// A word is read where four bytes are left, and nowhere else: with fewer
/// bytes the read fails, nothing is consumed and nothing is handed out.
pub proof fn lemma_short_word(input: Seq<u8>, pos: nat)
    ensures
        word_at(input, pos).outcome is Ok <==> pos + 4 <= input.len(),
        pos + 4 > input.len() ==> word_at(input, pos) == (Read {
            outcome: Err::<Seq<u8>, ErrorKind>(ErrorKind::TruncatedInput),
            used: 0,
        }),
        pos + 4 > input.len() ==> value_at(input, pos, Seq::empty()) == Decoding::failed(
            ErrorKind::TruncatedInput,
            0,
            Seq::empty(),
        ),
{
}

/// A marker whose reserved bytes are zero and whose first byte names no kind
/// fails on that byte, and the cursor stays behind the marker.
pub proof fn lemma_unknown_marker(input: Seq<u8>, pos: nat, notes: Seq<Note>)
    requires
        pos + 4 <= input.len(),
        input[pos + 1 as int] == 0,
        input[pos + 2 as int] == 0,
        input[pos + 3 as int] == 0,
        !is_code(input[pos as int]),
    ensures
        marker_at(input, pos) == (Read {
            outcome: Err::<Type, ErrorKind>(ErrorKind::UnknownMarker(input[pos as int])),
            used: 4,
        }),
        value_at(input, pos, notes) == Decoding::failed(
            ErrorKind::UnknownMarker(input[pos as int]),
            4,
            notes,
        ),
{
    let byte = input[pos as int];
    assert(code(Type::Bool) != byte);
    assert(code(Type::Int) != byte);
    assert(code(Type::Unknown3) != byte);
    assert(code(Type::String) != byte);
    assert(code(Type::Coordinates) != byte);
    assert(code(Type::Reference) != byte);
    assert(code(Type::Object) != byte);
    assert(code(Type::Array) != byte);
}

/// A marker with a reserved byte that is not zero is malformed, whatever its
/// first byte.
pub proof fn lemma_malformed_marker(input: Seq<u8>, pos: nat, notes: Seq<Note>)
    requires
        pos + 4 <= input.len(),
        input[pos + 1 as int] != 0 || input[pos + 2 as int] != 0 || input[pos + 3 as int] != 0,
    ensures
        value_at(input, pos, notes) == Decoding::failed(ErrorKind::MalformedMarker, 4, notes),
{
}

/// The length of an object or an array is its first three bytes, lowest
/// first, where the fourth is the sentinel; with any other fourth byte the
/// read fails.
pub proof fn lemma_length_sentinel(input: Seq<u8>, pos: nat, ty: Type)
    requires
        pos + 4 <= input.len(),
        ty == Type::Object || ty == Type::Array,
    ensures
        length_at(input, pos, ty).used == 4,
        length_at(input, pos, ty).outcome == if input[pos + 3 as int] == LENGTH_SENTINEL {
            Ok::<u32, ErrorKind>(
                (input[pos as int] + 256 * input[pos + 1 as int] + 65536 * input[pos
                    + 2 as int]) as u32,
            )
        } else {
            Err::<u32, ErrorKind>(ErrorKind::BadLengthSentinel)
        },
{
}

/// A string whose bytes are not valid UTF-8 fails, and the cursor stays
/// behind its bytes: the padding is not consumed.
pub proof fn lemma_invalid_utf8(input: Seq<u8>, pos: nat)
    requires
        pos + 4 <= input.len(),
        pos + 4 + le_u32(input.subrange(pos as int, pos + 4 as int)) <= input.len(),
        !valid_utf8(
            input.subrange(
                pos + 4 as int,
                pos + 4 + le_u32(input.subrange(pos as int, pos + 4 as int)) as int,
            ),
        ),
    ensures
        string_body_at(input, pos) == (Read {
            outcome: Err::<Seq<char>, ErrorKind>(ErrorKind::InvalidUtf8),
            used: 4 + le_u32(input.subrange(pos as int, pos + 4 as int)) as nat,
        }),
{
}

} // verus!
