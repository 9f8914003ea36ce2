//! The value decoder: one recursive pass over the bytes of a save.
//!
//! A value is a marker and a payload whose shape the marker decides. Objects
//! and arrays hold further values; values of the two kinds that carry no data
//! decode to `Null`, and are left out of the object or array that holds them.

use crate::reader::{
    le_u32, length_at, marker_at, read4b, read_f32, read_len, read_string, read_u32_le,
    string_at, string_body_at, word_at, ErrorKind, Reader, Type,
};
use crate::text::lemma_ascii_before;
use crate::names::{entries_of, into_fields, keep_field, no_fields, tracks};
use crate::value::{
    fields_of, holds, lemma_array_view, lemma_object_view, lemma_put,
    lemma_put_fields, notes_of, put, sorted_keys, trees_of, well_formed, DecodeError, Failure,
    Note, PathStep, Step, Tree, Value, Warning,
};
use vstd::prelude::*;

verus! {

/// What decoding at some offset of an input comes to: the value or the
/// failure, the number of bytes by which the cursor moves, and the remarks
/// made up to then, those made before the decode included. A failed decode
/// leaves the cursor where the failure was found, and keeps the remarks made
/// before it.
pub struct Decoding {
    pub outcome: Result<Tree, Failure>,
    pub used: nat,
    pub notes: Seq<Note>,
}

impl Decoding {
    /// A decode that gave `tree`.
    pub open spec fn done(tree: Tree, used: nat, notes: Seq<Note>) -> Decoding {
        Decoding { outcome: Ok(tree), used, notes }
    }

    /// A decode that failed on the spot.
    pub open spec fn failed(kind: ErrorKind, used: nat, notes: Seq<Note>) -> Decoding {
        Decoding { outcome: Err(Failure::here(kind)), used, notes }
    }

    /// The decoding as it stands behind `used` bytes.
    pub open spec fn after(self, used: nat) -> Decoding {
        Decoding { outcome: self.outcome, used: used + self.used, notes: self.notes }
    }
}

/// The number of bytes from `pos` to the end of the input.
pub open spec fn rest(input: Seq<u8>, pos: nat) -> nat {
    if pos <= input.len() {
        (input.len() - pos) as nat
    } else {
        0
    }
}

/// The name of the first coordinate.
pub open spec fn x_key() -> Seq<char> {
    "x"@
}

/// The name of the second coordinate.
pub open spec fn y_key() -> Seq<char> {
    "y"@
}

/// The payload of a boolean at `pos`: a word whose first byte is 0 or 1.
pub open spec fn bool_at(input: Seq<u8>, pos: nat, notes: Seq<Note>) -> Decoding {
    let word = word_at(input, pos);
    match word.outcome {
        Err(kind) => Decoding::failed(kind, word.used, notes),
        Ok(w) => if w[0] == 0 {
            Decoding::done(Tree::Bool(false), word.used, notes)
        } else if w[0] == 1 {
            Decoding::done(Tree::Bool(true), word.used, notes)
        } else {
            Decoding::failed(ErrorKind::InvalidBoolValue(w[0]), word.used, notes)
        },
    }
}

/// The payload of an integer at `pos`: a little-endian unsigned word.
pub open spec fn int_at(input: Seq<u8>, pos: nat, notes: Seq<Note>) -> Decoding {
    let word = word_at(input, pos);
    match word.outcome {
        Err(kind) => Decoding::failed(kind, word.used, notes),
        Ok(w) => Decoding::done(Tree::Int(le_u32(w)), word.used, notes),
    }
}

/// The payload of a value of unknown meaning at `pos`: a word that is
/// remarked on and dropped.
pub open spec fn unknown_at(input: Seq<u8>, pos: nat, notes: Seq<Note>) -> Decoding {
    let word = word_at(input, pos);
    match word.outcome {
        Err(kind) => Decoding::failed(kind, word.used, notes),
        Ok(w) => Decoding::done(
            Tree::Null,
            word.used,
            notes.push(Note::Unknown3 { raw: le_u32(w) }),
        ),
    }
}

/// The payload of a string at `pos`.
pub open spec fn text_at(input: Seq<u8>, pos: nat, notes: Seq<Note>) -> Decoding {
    let text = string_body_at(input, pos);
    match text.outcome {
        Err(kind) => Decoding::failed(kind, text.used, notes),
        Ok(s) => Decoding::done(Tree::Str(s), text.used, notes),
    }
}

/// The payload of a pair of coordinates at `pos`: two single-precision
/// numbers, which become the fields `x` and `y` of an object.
pub open spec fn coordinates_at(input: Seq<u8>, pos: nat, notes: Seq<Note>) -> Decoding {
    let x = word_at(input, pos);
    match x.outcome {
        Err(kind) => Decoding::failed(kind, x.used, notes),
        Ok(wx) => {
            let y = word_at(input, pos + x.used);
            match y.outcome {
                Err(kind) => Decoding::failed(kind, x.used + y.used, notes),
                Ok(wy) => Decoding::done(
                    Tree::Object(
                        seq![
                            (x_key(), Tree::Single(le_u32(wx))),
                            (y_key(), Tree::Single(le_u32(wy))),
                        ],
                    ),
                    x.used + y.used,
                    notes,
                ),
            }
        },
    }
}

/// The value at `pos`, where `notes` are the remarks made before: its marker,
/// and the payload that the marker asks for.
pub open spec fn value_at(input: Seq<u8>, pos: nat, notes: Seq<Note>) -> Decoding
    decreases rest(input, pos), 0nat,
{
    let marker = marker_at(input, pos);
    let at = pos + marker.used;
    match marker.outcome {
        Err(kind) => Decoding::failed(kind, marker.used, notes),
        Ok(Type::Bool) => bool_at(input, at, notes).after(marker.used),
        Ok(Type::Int) => int_at(input, at, notes).after(marker.used),
        Ok(Type::Unknown3) => unknown_at(input, at, notes).after(marker.used),
        Ok(Type::String) => text_at(input, at, notes).after(marker.used),
        Ok(Type::Coordinates) => coordinates_at(input, at, notes).after(marker.used),
        Ok(Type::Reference) => Decoding::done(Tree::Null, marker.used, notes.push(Note::Reference)),
        Ok(Type::Object) => {
            let len = length_at(input, at, Type::Object);
            match len.outcome {
                Err(kind) => Decoding::failed(kind, marker.used + len.used, notes),
                Ok(n) => fields_at(input, at + len.used, 0, n as nat, Seq::empty(), notes).after(
                    marker.used + len.used,
                ),
            }
        },
        Ok(Type::Array) => {
            let len = length_at(input, at, Type::Array);
            match len.outcome {
                Err(kind) => Decoding::failed(kind, marker.used + len.used, notes),
                Ok(n) => items_at(input, at + len.used, 0, n as nat, Seq::empty(), notes).after(
                    marker.used + len.used,
                ),
            }
        },
    }
}

/// The fields `i` to `n` of an object, from `pos` on, where `fields` were
/// collected and `notes` were made before. Each field is a name, which is a
/// string with its marker, and a value. The fields are kept in the order of
/// their names. A later field of the same name overwrites an earlier one,
/// and a field whose value is `Null` is remarked on and left out.
pub open spec fn fields_at(
    input: Seq<u8>,
    pos: nat,
    i: nat,
    n: nat,
    fields: Seq<(Seq<char>, Tree)>,
    notes: Seq<Note>,
) -> Decoding
    decreases rest(input, pos), n - i,
{
    if i >= n {
        Decoding::done(Tree::Object(fields), 0, notes)
    } else {
        let name = string_at(input, pos, true);
        match name.outcome {
            Err(kind) => Decoding {
                outcome: Err(Failure::here(kind).under(Step::FieldName { index: i as u32 })),
                used: name.used,
                notes,
            },
            Ok(key) => {
                let value = value_at(input, pos + name.used, notes);
                let used = name.used + value.used;
                match value.outcome {
                    Err(failure) => Decoding {
                        outcome: Err(failure.under(Step::FieldValue { name: key, index: i as u32 })),
                        used,
                        notes: value.notes,
                    },
                    Ok(Tree::Null) => fields_at(
                        input,
                        pos + used,
                        i + 1,
                        n,
                        fields,
                        value.notes.push(Note::NullField { name: key, index: i as u32 }),
                    ).after(used),
                    Ok(tree) => fields_at(
                        input,
                        pos + used,
                        i + 1,
                        n,
                        put(fields, key, tree),
                        value.notes,
                    ).after(used),
                }
            },
        }
    }
}

/// The elements `i` to `n` of an array, from `pos` on, where `items` were
/// collected and `notes` were made before. An element that is `Null` is
/// remarked on and left out; the others keep their order.
pub open spec fn items_at(
    input: Seq<u8>,
    pos: nat,
    i: nat,
    n: nat,
    items: Seq<Tree>,
    notes: Seq<Note>,
) -> Decoding
    decreases rest(input, pos), n - i,
{
    if i >= n {
        Decoding::done(Tree::Array(items), 0, notes)
    } else {
        let value = value_at(input, pos, notes);
        match value.outcome {
            Err(failure) => Decoding {
                outcome: Err(failure.under(Step::Element { index: i as u32 })),
                used: value.used,
                notes: value.notes,
            },
            Ok(Tree::Null) => items_at(
                input,
                pos + value.used,
                i + 1,
                n,
                items,
                value.notes.push(Note::NullElement { index: i as u32 }),
            ).after(value.used),
            Ok(tree) => items_at(
                input,
                pos + value.used,
                i + 1,
                n,
                items.push(tree),
                value.notes,
            ).after(value.used),
        }
    }
}

/// Whether a decode did what `decoding` asks for: gave that value or that
/// failure, moved the cursor by that many bytes, and left those remarks.
pub open spec fn agrees(
    value: Result<Value, DecodeError>,
    pos_before: nat,
    pos_after: nat,
    notes_after: Seq<Note>,
    decoding: Decoding,
) -> bool {
    &&& pos_after == pos_before + decoding.used
    &&& notes_after == decoding.notes
    &&& match value {
        Ok(v) => decoding.outcome == Ok::<Tree, Failure>(v@),
        Err(e) => decoding.outcome == Err::<Tree, Failure>(e@),
    }
}

/// Adds a remark to those made so far.
fn warn(warnings: &mut Vec<Warning>, warning: Warning)
    ensures
        notes_of(final(warnings)@) == notes_of(old(warnings)@).push(warning@),
{
    warnings.push(warning);
    assert(notes_of(warnings@) =~= notes_of(old(warnings)@).push(warning@));
}

/// Whether the value is `Null`.
pub fn is_null(value: &Value) -> (null: bool)
    ensures
        null == (value@ is Null),
{
    match value {
        Value::Null => true,
        _ => false,
    }
}

/// Decodes the value at the cursor. The remarks made on the way are added to
/// `warnings`. On a failure the cursor stays where the failure was found, and
/// the error names the way down to it.
pub fn read_value(reader: &mut Reader, warnings: &mut Vec<Warning>) -> (value: Result<
    Value,
    DecodeError,
>)
    ensures
        final(reader).input() == old(reader).input(),
        agrees(
            value,
            old(reader).offset(),
            final(reader).offset(),
            notes_of(final(warnings)@),
            value_at(old(reader).input(), old(reader).offset(), notes_of(old(warnings)@)),
        ),
    decreases rest(old(reader).input(), old(reader).offset()), 0nat,
{
    let ty = match Type::read_marker(reader) {
        Ok(ty) => ty,
        Err(kind) => {
            return Err(DecodeError::here(kind));
        },
    };
    match ty {
        Type::Bool => {
            let bytes = match read4b(reader) {
                Ok(bytes) => bytes,
                Err(kind) => {
                    return Err(DecodeError::here(kind));
                },
            };
            match bytes[0] {
                0 => Ok(Value::Bool(false)),
                1 => Ok(Value::Bool(true)),
                val => Err(DecodeError::here(ErrorKind::InvalidBoolValue(val))),
            }
        },
        Type::Int => {
            let bytes = match read4b(reader) {
                Ok(bytes) => bytes,
                Err(kind) => {
                    return Err(DecodeError::here(kind));
                },
            };
            Ok(Value::Int(read_u32_le(bytes)))
        },
        Type::Unknown3 => {
            let bytes = match read4b(reader) {
                Ok(bytes) => bytes,
                Err(kind) => {
                    return Err(DecodeError::here(kind));
                },
            };
            warn(warnings, Warning::Unknown3 { raw: read_u32_le(bytes) });
            Ok(Value::Null)
        },
        Type::String => match read_string(reader, false) {
            Ok(text) => Ok(Value::String(text)),
            Err(kind) => Err(DecodeError::here(kind)),
        },
        Type::Coordinates => {
            let x = match read_f32(reader) {
                Ok(bits) => bits,
                Err(kind) => {
                    return Err(DecodeError::here(kind));
                },
            };
            let y = match read_f32(reader) {
                Ok(bits) => bits,
                Err(kind) => {
                    return Err(DecodeError::here(kind));
                },
            };
            let mut fields: Vec<(String, Value)> = Vec::new();
            fields.push(("x".to_owned(), Value::Single(x)));
            fields.push(("y".to_owned(), Value::Single(y)));
            proof {
                lemma_object_view(fields);
                assert(fields_of(fields@) =~= seq![
                    (x_key(), Tree::Single(x)),
                    (y_key(), Tree::Single(y)),
                ]);
            }
            Ok(Value::Object(fields))
        },
        Type::Reference => {
            warn(warnings, Warning::Reference);
            Ok(Value::Null)
        },
        Type::Object => {
            let len = match read_len(reader, Type::Object) {
                Ok(len) => len,
                Err(kind) => {
                    return Err(DecodeError::here(kind));
                },
            };
            read_fields(reader, len, warnings)
        },
        Type::Array => {
            let len = match read_len(reader, Type::Array) {
                Ok(len) => len,
                Err(kind) => {
                    return Err(DecodeError::here(kind));
                },
            };
            read_items(reader, len, warnings)
        },
    }
}

/// Decodes the `count` fields of an object.
fn read_fields(reader: &mut Reader, count: u32, warnings: &mut Vec<Warning>) -> (value: Result<
    Value,
    DecodeError,
>)
    ensures
        final(reader).input() == old(reader).input(),
        agrees(
            value,
            old(reader).offset(),
            final(reader).offset(),
            notes_of(final(warnings)@),
            fields_at(
                old(reader).input(),
                old(reader).offset(),
                0,
                count as nat,
                Seq::empty(),
                notes_of(old(warnings)@),
            ),
        ),
    decreases rest(old(reader).input(), old(reader).offset()), 1nat,
{
    let ghost input = reader.input();
    let ghost start = reader.offset();
    let ghost whole = fields_at(input, start, 0, count as nat, Seq::empty(), notes_of(warnings@));
    let ghost mut fields: Seq<(Seq<char>, Tree)> = Seq::empty();
    let mut names = no_fields();
    let mut values: Vec<Option<Value>> = Vec::new();
    let mut i: u32 = 0;
    while i < count
        invariant
            i <= count,
            input == old(reader).input(),
            start == old(reader).offset(),
            whole == fields_at(
                input,
                start,
                0,
                count as nat,
                Seq::empty(),
                notes_of(old(warnings)@),
            ),
            reader.input() == input,
            reader.offset() >= start,
            tracks(entries_of(names), values@, fields),
            sorted_keys(fields),
            whole == fields_at(
                input,
                reader.offset(),
                i as nat,
                count as nat,
                fields,
                notes_of(warnings@),
            ).after((reader.offset() - start) as nat),
        decreases count - i,
    {
        let name = match read_string(reader, true) {
            Ok(name) => name,
            Err(kind) => {
                return Err(DecodeError::here(kind).under(PathStep::FieldName { index: i }));
            },
        };
        let value = match read_value(reader, warnings) {
            Ok(value) => value,
            Err(e) => {
                return Err(e.under(PathStep::FieldValue { name, index: i }));
            },
        };
        if is_null(&value) {
            warn(warnings, Warning::NullField { name, index: i });
        } else {
            let ghost set = put(fields, name@, value@);
            keep_field(&mut names, &mut values, name, value, Ghost(fields));
            proof {
                fields = set;
            }
        }
        i += 1;
    }
    let fields = into_fields(names, values, Ghost(fields));
    proof {
        lemma_object_view(fields);
    }
    Ok(Value::Object(fields))
}

/// Decodes the `count` elements of an array.
fn read_items(reader: &mut Reader, count: u32, warnings: &mut Vec<Warning>) -> (value: Result<
    Value,
    DecodeError,
>)
    ensures
        final(reader).input() == old(reader).input(),
        agrees(
            value,
            old(reader).offset(),
            final(reader).offset(),
            notes_of(final(warnings)@),
            items_at(
                old(reader).input(),
                old(reader).offset(),
                0,
                count as nat,
                Seq::empty(),
                notes_of(old(warnings)@),
            ),
        ),
    decreases rest(old(reader).input(), old(reader).offset()), 1nat,
{
    let ghost input = reader.input();
    let ghost start = reader.offset();
    let ghost whole = items_at(input, start, 0, count as nat, Seq::empty(), notes_of(warnings@));
    let mut values: Vec<Value> = Vec::new();
    let mut i: u32 = 0;
    assert(trees_of(values@) =~= Seq::empty());
    while i < count
        invariant
            i <= count,
            input == old(reader).input(),
            start == old(reader).offset(),
            whole == items_at(
                input,
                start,
                0,
                count as nat,
                Seq::empty(),
                notes_of(old(warnings)@),
            ),
            reader.input() == input,
            reader.offset() >= start,
            whole == items_at(
                input,
                reader.offset(),
                i as nat,
                count as nat,
                trees_of(values@),
                notes_of(warnings@),
            ).after((reader.offset() - start) as nat),
        decreases count - i,
    {
        let value = match read_value(reader, warnings) {
            Ok(value) => value,
            Err(e) => {
                return Err(e.under(PathStep::Element { index: i }));
            },
        };
        if is_null(&value) {
            warn(warnings, Warning::NullElement { index: i });
        } else {
            assert(trees_of(values@.push(value)) =~= trees_of(values@).push(value@));
            values.push(value);
        }
        i += 1;
    }
    proof {
        lemma_array_view(values);
    }
    Ok(Value::Array(values))
}

/// Decodes the value at the start of `bytes`, and gives the remarks made on
/// the way beside it. What follows the value is not looked at.
pub fn decode(bytes: Vec<u8>) -> (decoded: (Result<Value, DecodeError>, Vec<Warning>))
    ensures
        notes_of(decoded.1@) == value_at(bytes@, 0, Seq::empty()).notes,
        match decoded.0 {
            Ok(v) => value_at(bytes@, 0, Seq::empty()).outcome == Ok::<Tree, Failure>(v@),
            Err(e) => value_at(bytes@, 0, Seq::empty()).outcome == Err::<Tree, Failure>(e@),
        },
{
    let mut reader = Reader::new(bytes);
    let mut warnings: Vec<Warning> = Vec::new();
    assert(notes_of(warnings@) =~= Seq::empty());
    let value = read_value(&mut reader, &mut warnings);
    (value, warnings)
}

/// Every field holds a value that may stand in an object.
pub open spec fn fields_well_formed(fields: Seq<(Seq<char>, Tree)>) -> bool {
    forall|i: int| 0 <= i < fields.len() ==> holds((#[trigger] fields[i]).1)
}

/// Every item may stand in an array.
pub open spec fn items_well_formed(items: Seq<Tree>) -> bool {
    forall|i: int| 0 <= i < items.len() ==> holds(#[trigger] items[i])
}

/// The name of the first coordinate comes before that of the second.
pub proof fn lemma_coordinate_keys()
    ensures
        crate::text::text_before(x_key(), y_key()),
{
    reveal_strlit("x");
    reveal_strlit("y");
    assert(x_key().take(0) =~= y_key().take(0));
    lemma_ascii_before(x_key(), y_key(), 0);
}

/// Whatever the input holds, the fields of every object of a decoded value
/// stand in the order of their names, each name once, and no object and no
/// array of it holds `Null`: only the value as a whole can be `Null`.
pub proof fn lemma_decoded_well_formed(input: Seq<u8>, pos: nat, notes: Seq<Note>)
    ensures
        value_at(input, pos, notes).outcome matches Ok(tree) ==> well_formed(tree),
    decreases rest(input, pos), 0nat,
{
    let marker = marker_at(input, pos);
    let at = pos + marker.used;
    match marker.outcome {
        Ok(Type::Coordinates) => {
            lemma_coordinate_keys();
            if coordinates_at(input, at, notes).outcome is Ok {
                let fields = coordinates_at(input, at, notes).outcome->Ok_0->Object_0;
                assert(fields[0].0 == x_key() && fields[1].0 == y_key());
                assert(holds(fields[0].1) && holds(fields[1].1));
            }
        },
        Ok(Type::Object) => {
            let len = length_at(input, at, Type::Object);
            if let Ok(n) = len.outcome {
                lemma_fields_well_formed(input, at + len.used, 0, n as nat, Seq::empty(), notes);
            }
        },
        Ok(Type::Array) => {
            let len = length_at(input, at, Type::Array);
            if let Ok(n) = len.outcome {
                lemma_items_well_formed(input, at + len.used, 0, n as nat, Seq::empty(), notes);
            }
        },
        _ => {},
    }
}

/// Fields that are added to well-formed fields give a well-formed object.
proof fn lemma_fields_well_formed(
    input: Seq<u8>,
    pos: nat,
    i: nat,
    n: nat,
    fields: Seq<(Seq<char>, Tree)>,
    notes: Seq<Note>,
)
    requires
        sorted_keys(fields),
        fields_well_formed(fields),
    ensures
        fields_at(input, pos, i, n, fields, notes).outcome matches Ok(tree) ==> well_formed(tree),
    decreases rest(input, pos), n - i,
{
    if i < n {
        let name = string_at(input, pos, true);
        if let Ok(key) = name.outcome {
            let value = value_at(input, pos + name.used, notes);
            let used = name.used + value.used;
            lemma_decoded_well_formed(input, pos + name.used, notes);
            match value.outcome {
                Err(_) => {},
                Ok(Tree::Null) => {
                    lemma_fields_well_formed(
                        input,
                        pos + used,
                        i + 1,
                        n,
                        fields,
                        value.notes.push(Note::NullField { name: key, index: i as u32 }),
                    );
                },
                Ok(tree) => {
                    let next = put(fields, key, tree);
                    lemma_put(fields, key, tree, key);
                    lemma_put_fields(fields, key, tree);
                    assert forall|j: int| 0 <= j < next.len() implies holds(
                        (#[trigger] next[j]).1,
                    ) by {
                        if next[j] != (key, tree) {
                            let k = choose|k: int| 0 <= k < fields.len() && fields[k] == next[j];
                            assert(holds(fields[k].1));
                        }
                    }
                    lemma_fields_well_formed(input, pos + used, i + 1, n, next, value.notes);
                },
            }
        }
    }
}

/// Elements that are added to well-formed elements give a well-formed array.
proof fn lemma_items_well_formed(
    input: Seq<u8>,
    pos: nat,
    i: nat,
    n: nat,
    items: Seq<Tree>,
    notes: Seq<Note>,
)
    requires
        items_well_formed(items),
    ensures
        items_at(input, pos, i, n, items, notes).outcome matches Ok(tree) ==> well_formed(tree),
    decreases rest(input, pos), n - i,
{
    if i < n {
        let value = value_at(input, pos, notes);
        lemma_decoded_well_formed(input, pos, notes);
        match value.outcome {
            Err(_) => {},
            Ok(Tree::Null) => {
                lemma_items_well_formed(
                    input,
                    pos + value.used,
                    i + 1,
                    n,
                    items,
                    value.notes.push(Note::NullElement { index: i as u32 }),
                );
            },
            Ok(tree) => {
                lemma_items_well_formed(
                    input,
                    pos + value.used,
                    i + 1,
                    n,
                    items.push(tree),
                    value.notes,
                );
            },
        }
    }
}

} // verus!
