//! The tag reader: the framing primitives of the legacy save format.
//!
//! Everything on the wire is a run of 4-byte words: a marker that names the
//! kind of the value that follows, little-endian integers, and strings whose
//! bytes are padded with up to three bytes to the next word boundary.

use vstd::prelude::*;
use vstd::utf8::*;

verus! {

/// The kind of value that a marker announces.
#[derive(Debug, Clone, Copy, PartialEq, Eq, Structural)]
pub enum Type {
    Bool,
    Int,
    Unknown3,
    String,
    Coordinates,
    Reference,
    Object,
    Array,
}

/// Why a read failed.
#[derive(Debug, Clone, Copy, PartialEq, Eq, Structural)]
pub enum ErrorKind {
    /// Fewer bytes are left than the read needs.
    TruncatedInput,
    /// One of the three reserved bytes of a marker is not zero.
    MalformedMarker,
    /// The first byte of a marker names no known kind.
    UnknownMarker(u8),
    /// A marker of the first kind was due and one of the second kind was found.
    UnexpectedMarker(Type, Type),
    /// The top byte of an object's or array's length is not `0x80`.
    BadLengthSentinel,
    /// The first byte of a boolean's payload is neither 0 nor 1.
    InvalidBoolValue(u8),
    /// The bytes of a string are not valid UTF-8.
    InvalidUtf8,
}

/// What a read at some offset of an input comes to: its result, and the number
/// of bytes by which it moves the cursor.
pub struct Read<T> {
    pub outcome: Result<T, ErrorKind>,
    pub used: nat,
}

/// The top byte that marks the length of an object or an array.
pub const LENGTH_SENTINEL: u8 = 0x80;

/// The number that four bytes spell in little-endian order.
pub open spec fn le_u32(word: Seq<u8>) -> u32
    recommends
        word.len() == 4,
{
    (word[0] + 256 * word[1] + 65536 * word[2] + 16777216 * word[3]) as u32
}

/// The kind that a marker word names, or the reason why it names none.
pub open spec fn marker_of(word: Seq<u8>) -> Result<Type, ErrorKind>
    recommends
        word.len() == 4,
{
    if word[1] != 0 || word[2] != 0 || word[3] != 0 {
        Err(ErrorKind::MalformedMarker)
    } else if word[0] == 0x01 {
        Ok(Type::Bool)
    } else if word[0] == 0x02 {
        Ok(Type::Int)
    } else if word[0] == 0x03 {
        Ok(Type::Unknown3)
    } else if word[0] == 0x04 {
        Ok(Type::String)
    } else if word[0] == 0x05 {
        Ok(Type::Coordinates)
    } else if word[0] == 0x12 {
        Ok(Type::Reference)
    } else if word[0] == 0x14 {
        Ok(Type::Object)
    } else if word[0] == 0x15 {
        Ok(Type::Array)
    } else {
        Err(ErrorKind::UnknownMarker(word[0]))
    }
}

/// The length that a length word gives for a value of kind `ty`: the plain
/// number for a string; for an object or an array the number with its top
/// byte cleared, provided that byte is the sentinel.
pub open spec fn length_of(word: Seq<u8>, ty: Type) -> Result<u32, ErrorKind>
    recommends
        word.len() == 4,
{
    if ty == Type::String {
        Ok(le_u32(word))
    } else if word[3] == LENGTH_SENTINEL {
        Ok(le_u32(word.update(3, 0u8)))
    } else {
        Err(ErrorKind::BadLengthSentinel)
    }
}

/// The number of padding bytes behind a string of `len` bytes.
pub open spec fn padding(len: nat) -> nat {
    ((4 - len % 4) % 4) as nat
}

/// Reading one word at `pos`.
pub open spec fn word_at(input: Seq<u8>, pos: nat) -> Read<Seq<u8>> {
    if pos + 4 <= input.len() {
        Read { outcome: Ok(input.subrange(pos as int, pos + 4 as int)), used: 4 }
    } else {
        Read { outcome: Err(ErrorKind::TruncatedInput), used: 0 }
    }
}

/// Reading a marker at `pos`.
pub open spec fn marker_at(input: Seq<u8>, pos: nat) -> Read<Type> {
    let word = word_at(input, pos);
    match word.outcome {
        Ok(w) => Read { outcome: marker_of(w), used: word.used },
        Err(e) => Read { outcome: Err(e), used: word.used },
    }
}

/// Reading the length of a value of kind `ty` at `pos`.
pub open spec fn length_at(input: Seq<u8>, pos: nat, ty: Type) -> Read<u32> {
    let word = word_at(input, pos);
    match word.outcome {
        Ok(w) => Read { outcome: length_of(w, ty), used: word.used },
        Err(e) => Read { outcome: Err(e), used: word.used },
    }
}

/// Reading the body of a string at `pos`: its length, its bytes, which must be
/// valid UTF-8, and the padding behind them, whatever it holds.
pub open spec fn string_body_at(input: Seq<u8>, pos: nat) -> Read<Seq<char>> {
    let len = length_at(input, pos, Type::String);
    match len.outcome {
        Err(e) => Read { outcome: Err(e), used: len.used },
        Ok(n) => {
            let n = n as nat;
            let start = pos + len.used;
            let end = start + n;
            if end > input.len() {
                Read { outcome: Err(ErrorKind::TruncatedInput), used: len.used }
            } else if !valid_utf8(input.subrange(start as int, end as int)) {
                Read { outcome: Err(ErrorKind::InvalidUtf8), used: len.used + n }
            } else if end + padding(n) > input.len() {
                Read { outcome: Err(ErrorKind::TruncatedInput), used: len.used + n }
            } else {
                Read {
                    outcome: Ok(decode_utf8(input.subrange(start as int, end as int))),
                    used: len.used + n + padding(n),
                }
            }
        },
    }
}

/// Reading a string at `pos`, with its marker where `check_marker` is set.
pub open spec fn string_at(input: Seq<u8>, pos: nat, check_marker: bool) -> Read<Seq<char>> {
    if check_marker {
        let marker = marker_at(input, pos);
        match marker.outcome {
            Err(e) => Read { outcome: Err(e), used: marker.used },
            Ok(ty) => if ty != Type::String {
                Read {
                    outcome: Err(ErrorKind::UnexpectedMarker(Type::String, ty)),
                    used: marker.used,
                }
            } else {
                let body = string_body_at(input, pos + marker.used);
                Read { outcome: body.outcome, used: marker.used + body.used }
            },
        }
    } else {
        string_body_at(input, pos)
    }
}

/// A forward-only cursor over the bytes of a save.
pub struct Reader {
    bytes: Vec<u8>,
    pos: usize,
}

impl Reader {
    #[verifier::type_invariant]
    spec fn in_bounds(self) -> bool {
        self.pos <= self.bytes.len()
    }

    /// The bytes that the cursor runs over.
    pub closed spec fn input(&self) -> Seq<u8> {
        self.bytes@
    }

    /// The number of bytes that were consumed.
    pub closed spec fn offset(&self) -> nat {
        self.pos as nat
    }

    /// A cursor at the start of `bytes`.
    pub fn new(bytes: Vec<u8>) -> (reader: Reader)
        ensures
            reader.input() == bytes@,
            reader.offset() == 0,
    {
        Reader { bytes, pos: 0 }
    }

    /// The number of bytes that were consumed.
    pub fn position(&self) -> (pos: usize)
        ensures
            pos == self.offset(),
            pos <= self.input().len(),
    {
        proof {
            use_type_invariant(self);
        }
        self.pos
    }

    /// The number of bytes that are left.
    pub fn remaining(&self) -> (left: usize)
        ensures
            left == self.input().len() - self.offset(),
    {
        proof {
            use_type_invariant(self);
        }
        self.bytes.len() - self.pos
    }

}

impl Type {
    /// The kind that a marker names: the first byte picks it, the other three
    /// must be zero.
    pub fn from_marker(marker: [u8; 4]) -> (kind: Result<Type, ErrorKind>)
        ensures
            kind == marker_of(marker@),
    {
        if marker[1] != 0 || marker[2] != 0 || marker[3] != 0 {
            return Err(ErrorKind::MalformedMarker);
        }
        match marker[0] {
            0x01 => Ok(Type::Bool),
            0x02 => Ok(Type::Int),
            0x03 => Ok(Type::Unknown3),
            0x04 => Ok(Type::String),
            0x05 => Ok(Type::Coordinates),
            0x12 => Ok(Type::Reference),
            0x14 => Ok(Type::Object),
            0x15 => Ok(Type::Array),
            val => Err(ErrorKind::UnknownMarker(val)),
        }
    }

    /// Reads a marker and gives the kind that it names.
    pub fn read_marker(reader: &mut Reader) -> (kind: Result<Type, ErrorKind>)
        ensures
            final(reader).input() == old(reader).input(),
            kind == marker_at(old(reader).input(), old(reader).offset()).outcome,
            final(reader).offset() == old(reader).offset() + marker_at(
                old(reader).input(),
                old(reader).offset(),
            ).used,
    {
        match read4b(reader) {
            Ok(word) => Type::from_marker(word),
            Err(e) => Err(e),
        }
    }
}

/// Whether a read gave the words that `outcome` asks for.
pub open spec fn gave_word(word: Result<[u8; 4], ErrorKind>, outcome: Result<Seq<u8>, ErrorKind>) -> bool {
    match word {
        Ok(w) => outcome == Ok::<Seq<u8>, ErrorKind>(w@),
        Err(e) => outcome == Err::<Seq<u8>, ErrorKind>(e),
    }
}

/// Whether a read gave the text that `outcome` asks for.
pub open spec fn gave_text(text: Result<String, ErrorKind>, outcome: Result<Seq<char>, ErrorKind>) -> bool {
    match text {
        Ok(s) => outcome == Ok::<Seq<char>, ErrorKind>(s@),
        Err(e) => outcome == Err::<Seq<char>, ErrorKind>(e),
    }
}

/// Reads the next four bytes, or fails and leaves the cursor where it was.
pub fn read4b(reader: &mut Reader) -> (word: Result<[u8; 4], ErrorKind>)
    ensures
        final(reader).input() == old(reader).input(),
        final(reader).offset() == old(reader).offset() + word_at(
            old(reader).input(),
            old(reader).offset(),
        ).used,
        gave_word(word, word_at(old(reader).input(), old(reader).offset()).outcome),
{
    proof {
        use_type_invariant(&*reader);
    }
    if reader.bytes.len() - reader.pos < 4 {
        return Err(ErrorKind::TruncatedInput);
    }
    let at = reader.pos;
    let word = [
        reader.bytes[at],
        reader.bytes[at + 1],
        reader.bytes[at + 2],
        reader.bytes[at + 3],
    ];
    reader.pos = at + 4;
    assert(word@ =~= reader.bytes@.subrange(at as int, at + 4 as int));
    Ok(word)
}

/// The number that four bytes spell in little-endian order.
pub fn read_u32_le(word: [u8; 4]) -> (n: u32)
    ensures
        n == le_u32(word@),
{
    let b0 = word[0] as u32;
    let b1 = word[1] as u32;
    let b2 = word[2] as u32;
    let b3 = word[3] as u32;
    b0 + 256 * b1 + 65536 * b2 + 16777216 * b3
}

/// Reads the length of a string, an object or an array. An object's or an
/// array's length carries the sentinel in its top byte, which is checked and
/// cleared.
pub fn read_len(reader: &mut Reader, ty: Type) -> (len: Result<u32, ErrorKind>)
    requires
        ty == Type::String || ty == Type::Object || ty == Type::Array,
    ensures
        final(reader).input() == old(reader).input(),
        len == length_at(old(reader).input(), old(reader).offset(), ty).outcome,
        final(reader).offset() == old(reader).offset() + length_at(
            old(reader).input(),
            old(reader).offset(),
            ty,
        ).used,
{
    let mut len_bytes = match read4b(reader) {
        Ok(word) => word,
        Err(e) => {
            return Err(e);
        },
    };
    match ty {
        Type::String => Ok(read_u32_le(len_bytes)),
        _ => {
            if len_bytes[3] == LENGTH_SENTINEL {
                let ghost word = len_bytes@;
                len_bytes[3] = 0;
                assert(len_bytes@ =~= word.update(3, 0u8));
                Ok(read_u32_le(len_bytes))
            } else {
                Err(ErrorKind::BadLengthSentinel)
            }
        },
    }
}

/// `String::from_utf8` of std: the text that the bytes encode where they are
/// valid UTF-8, and nothing where they are not.
#[verifier::external_body]
fn string_from_utf8(bytes: Vec<u8>) -> (text: Option<String>)
    ensures
        text is Some <==> valid_utf8(bytes@),
        text matches Some(s) ==> s@ == decode_utf8(bytes@),
{
    String::from_utf8(bytes).ok()
}

/// Reads a string: its marker where `check_marker` is set, its length, its
/// bytes and the padding to the next word boundary. The padding is skipped
/// unread. Where the bytes are not valid UTF-8 the cursor stays behind them.
pub fn read_string(reader: &mut Reader, check_marker: bool) -> (text: Result<String, ErrorKind>)
    ensures
        final(reader).input() == old(reader).input(),
        gave_text(text, string_at(old(reader).input(), old(reader).offset(), check_marker).outcome),
        final(reader).offset() == old(reader).offset() + string_at(
            old(reader).input(),
            old(reader).offset(),
            check_marker,
        ).used,
{
    if check_marker {
        match Type::read_marker(reader) {
            Err(e) => {
                return Err(e);
            },
            Ok(ty) => {
                if ty != Type::String {
                    return Err(ErrorKind::UnexpectedMarker(Type::String, ty));
                }
            },
        }
    }
    let str_len = match read_len(reader, Type::String) {
        Ok(n) => n,
        Err(e) => {
            return Err(e);
        },
    };
    proof {
        use_type_invariant(&*reader);
    }
    let len = str_len as usize;
    if reader.bytes.len() - reader.pos < len {
        return Err(ErrorKind::TruncatedInput);
    }
    let start = reader.pos;
    let str_bytes = vstd::slice::slice_to_vec(
        vstd::slice::slice_subrange(reader.bytes.as_slice(), start, start + len),
    );
    reader.pos = start + len;
    let text = match string_from_utf8(str_bytes) {
        Some(s) => s,
        None => {
            return Err(ErrorKind::InvalidUtf8);
        },
    };
    // Strings are padded to align with 4 bytes
    let skip = ((4 - str_len % 4) % 4) as usize;
    if reader.bytes.len() - reader.pos < skip {
        return Err(ErrorKind::TruncatedInput);
    }
    reader.pos = reader.pos + skip;
    Ok(text)
}

/// Reads the four bytes of a single-precision number and gives its bits.
pub fn read_f32(reader: &mut Reader) -> (bits: Result<u32, ErrorKind>)
    ensures
        final(reader).input() == old(reader).input(),
        final(reader).offset() == old(reader).offset() + word_at(
            old(reader).input(),
            old(reader).offset(),
        ).used,
        match bits {
            Ok(b) => word_at(old(reader).input(), old(reader).offset()).outcome is Ok && b
                == le_u32(word_at(old(reader).input(), old(reader).offset()).outcome->Ok_0),
            Err(e) => word_at(old(reader).input(), old(reader).offset()).outcome == Err::<
                Seq<u8>,
                ErrorKind,
            >(e),
        },
{
    match read4b(reader) {
        Ok(word) => Ok(read_u32_le(word)),
        Err(e) => Err(e),
    }
}

} // verus!
