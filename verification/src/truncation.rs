//! What becomes of a decode when the input is cut short.

use crate::decoder::{fields_at, items_at, rest, value_at, Decoding};
use crate::reader::{
    length_at, marker_at, string_at, string_body_at, word_at, ErrorKind, Read, Type,
};
use crate::value::{put, Note, Tree};
use vstd::prelude::*;

verus! {

/// Whether a read ran out of input.
pub open spec fn ran_out<T>(read: Read<T>) -> bool {
    read.outcome == Err::<T, ErrorKind>(ErrorKind::TruncatedInput)
}

/// Whether a decode ran out of input.
pub open spec fn cut_short(decoding: Decoding) -> bool {
    decoding.outcome matches Err(failure) && failure.kind == ErrorKind::TruncatedInput
}

/// A word that lies before the cut is read as before; one that reaches over
/// it is not read.
proof fn lemma_cut_word(input: Seq<u8>, pos: nat, cut: nat)
    requires
        cut <= input.len(),
    ensures
        pos + 4 <= cut ==> word_at(input.take(cut as int), pos) == word_at(input, pos),
        pos + 4 > cut ==> ran_out(word_at(input.take(cut as int), pos)),
{
    if pos + 4 <= cut {
        assert(input.take(cut as int).subrange(pos as int, pos + 4 as int) =~= input.subrange(
            pos as int,
            pos + 4 as int,
        ));
    }
}

/// A string that lies before the cut is read as before; one that reaches over
/// it is not read.
proof fn lemma_cut_string(input: Seq<u8>, pos: nat, check_marker: bool, cut: nat)
    requires
        cut <= input.len(),
        string_at(input, pos, check_marker).outcome is Ok,
    ensures
        pos + string_at(input, pos, check_marker).used <= cut ==> string_at(
            input.take(cut as int),
            pos,
            check_marker,
        ) == string_at(input, pos, check_marker),
        pos + string_at(input, pos, check_marker).used > cut ==> ran_out(
            string_at(input.take(cut as int), pos, check_marker),
        ),
{
    let body = if check_marker {
        pos + 4
    } else {
        pos
    };
    lemma_cut_word(input, pos, cut);
    lemma_cut_word(input, body, cut);
    lemma_cut_body(input, body, cut);
}

/// The body of a string that lies before the cut is read as before; one that
/// reaches over it is not read.
proof fn lemma_cut_body(input: Seq<u8>, pos: nat, cut: nat)
    requires
        cut <= input.len(),
        string_body_at(input, pos).outcome is Ok,
    ensures
        pos + string_body_at(input, pos).used <= cut ==> string_body_at(
            input.take(cut as int),
            pos,
        ) == string_body_at(input, pos),
        pos + string_body_at(input, pos).used > cut ==> ran_out(
            string_body_at(input.take(cut as int), pos),
        ),
{
    let short = input.take(cut as int);
    lemma_cut_word(input, pos, cut);
    let len = length_at(input, pos, Type::String);
    let n = len.outcome->Ok_0 as nat;
    let start = pos + 4;
    let end = start + n;
    if end <= cut {
        assert(short.subrange(start as int, end as int) =~= input.subrange(
            start as int,
            end as int,
        ));
    }
}

/// A save that is cut short behind a value decodes to that value as before;
/// one that is cut short anywhere inside the value fails to decode, and the
/// failure says that the input ran out.
pub proof fn lemma_truncation(input: Seq<u8>, pos: nat, notes: Seq<Note>, cut: nat)
    requires
        cut <= input.len(),
        value_at(input, pos, notes).outcome is Ok,
    ensures
        pos + value_at(input, pos, notes).used <= cut ==> value_at(
            input.take(cut as int),
            pos,
            notes,
        ) == value_at(input, pos, notes),
        pos + value_at(input, pos, notes).used > cut ==> cut_short(
            value_at(input.take(cut as int), pos, notes),
        ),
    decreases rest(input, pos), 0nat,
{
    let marker = marker_at(input, pos);
    let at = pos + marker.used;
    lemma_cut_word(input, pos, cut);
    lemma_cut_word(input, at, cut);
    match marker.outcome {
        Ok(Type::String) => {
            lemma_cut_body(input, at, cut);
        },
        Ok(Type::Coordinates) => {
            lemma_cut_word(input, at + 4, cut);
        },
        Ok(Type::Object) => {
            let len = length_at(input, at, Type::Object);
            let n = len.outcome->Ok_0 as nat;
            if at + 4 <= cut {
                lemma_cut_fields(input, at + 4, 0, n, Seq::empty(), notes, cut);
            }
        },
        Ok(Type::Array) => {
            let len = length_at(input, at, Type::Array);
            let n = len.outcome->Ok_0 as nat;
            if at + 4 <= cut {
                lemma_cut_items(input, at + 4, 0, n, Seq::empty(), notes, cut);
            }
        },
        _ => {},
    }
}

/// Fields of an object that take no bytes or lie before the cut decode as
/// before; fields that reach over it fail to decode, and the failure says that
/// the input ran out.
proof fn lemma_cut_fields(
    input: Seq<u8>,
    pos: nat,
    i: nat,
    n: nat,
    fields: Seq<(Seq<char>, Tree)>,
    notes: Seq<Note>,
    cut: nat,
)
    requires
        cut <= input.len(),
        fields_at(input, pos, i, n, fields, notes).outcome is Ok,
    ensures
        ({
            let whole = fields_at(input, pos, i, n, fields, notes);
            let short = fields_at(input.take(cut as int), pos, i, n, fields, notes);
            &&& whole.used == 0 || pos + whole.used <= cut ==> short == whole
            &&& whole.used > 0 && pos + whole.used > cut ==> cut_short(short)
        }),
    decreases rest(input, pos), n - i,
{
    if i < n {
        let name = string_at(input, pos, true);
        lemma_cut_string(input, pos, true, cut);
        if pos + name.used <= cut {
            let key = name.outcome->Ok_0;
            let value = value_at(input, pos + name.used, notes);
            let used = name.used + value.used;
            lemma_truncation(input, pos + name.used, notes, cut);
            if pos + used <= cut {
                match value.outcome {
                    Ok(Tree::Null) => {
                        lemma_cut_fields(
                            input,
                            pos + used,
                            i + 1,
                            n,
                            fields,
                            value.notes.push(Note::NullField { name: key, index: i as u32 }),
                            cut,
                        );
                    },
                    Ok(tree) => {
                        lemma_cut_fields(
                            input,
                            pos + used,
                            i + 1,
                            n,
                            put(fields, key, tree),
                            value.notes,
                            cut,
                        );
                    },
                    Err(_) => {},
                }
            }
        }
    }
}

/// Elements of an array that take no bytes or lie before the cut decode as
/// before; elements that reach over it fail to decode, and the failure says
/// that the input ran out.
proof fn lemma_cut_items(
    input: Seq<u8>,
    pos: nat,
    i: nat,
    n: nat,
    items: Seq<Tree>,
    notes: Seq<Note>,
    cut: nat,
)
    requires
        cut <= input.len(),
        items_at(input, pos, i, n, items, notes).outcome is Ok,
    ensures
        ({
            let whole = items_at(input, pos, i, n, items, notes);
            let short = items_at(input.take(cut as int), pos, i, n, items, notes);
            &&& whole.used == 0 || pos + whole.used <= cut ==> short == whole
            &&& whole.used > 0 && pos + whole.used > cut ==> cut_short(short)
        }),
    decreases rest(input, pos), n - i,
{
    if i < n {
        let value = value_at(input, pos, notes);
        lemma_truncation(input, pos, notes, cut);
        if pos + value.used <= cut {
            match value.outcome {
                Ok(Tree::Null) => {
                    lemma_cut_items(
                        input,
                        pos + value.used,
                        i + 1,
                        n,
                        items,
                        value.notes.push(Note::NullElement { index: i as u32 }),
                        cut,
                    );
                },
                Ok(tree) => {
                    lemma_cut_items(
                        input,
                        pos + value.used,
                        i + 1,
                        n,
                        items.push(tree),
                        value.notes,
                        cut,
                    );
                },
                Err(_) => {},
            }
        }
    }
}

} // verus!
