//! Converting a legacy binary save into the JSON form of a save.
//!
//! A binary save is a word that gives the size of the data, which is skipped,
//! and one value. The JSON form wraps that value next to a version number.

use crate::decoder::{read_value, value_at};
use crate::reader::{read4b, Reader};
use crate::utils::{
    added_extension, extension_of, file_name_of, may_add, path_file_name, path_with_file_name,
    same_text, text_of, try_added_extension, with_extension_of, with_file_name_of, SAVE_DATA_KEY,
};
use crate::value::{fields_of, lemma_object_view, notes_of, DecodeError, Note, Tree, Value, Warning};
use vstd::prelude::*;

verus! {

/// What to convert, and where to.
pub struct Ops {
    /// The path of the binary save.
    pub input_path: String,
    /// The path to write the JSON to. Where there is none, the JSON goes
    /// beside the binary save, under the name that the game gives to the save
    /// of the same slot or, for a file that is not named like a save, under
    /// the file's name with `.json` added.
    pub output_path: Option<String>,
}

/// A finished conversion.
#[derive(Debug, PartialEq)]
pub struct Conversion {
    /// The path to write the JSON to.
    pub output_path: String,
    /// The JSON form of the save.
    pub json: Value,
}

/// Why a save could not be converted.
#[derive(Debug, PartialEq)]
pub enum ConvertError {
    /// The input is shorter than the word that gives its size.
    Header,
    /// The data of the save does not decode.
    Data(DecodeError),
    /// The path to write to cannot be named: the extension that the input
    /// path would get holds a separator.
    OutputPath,
}

/// The version number of the JSON form.
pub const VERSION: u32 = 1;

/// The key of the version number.
pub const VERSION_KEY: &'static str = "version";

/// The name that the game gives to the JSON save of the slot of a binary
/// save, for a file that is named like a binary save.
pub open spec fn converted_name_of(name: Seq<char>) -> Option<Seq<char>> {
    if name == "savegame.bin"@ {
        Some("savefile0.json"@)
    } else if name == "savegame2.bin"@ {
        Some("savefile1.json"@)
    } else if name == "savegame3.bin"@ {
        Some("savefile2.json"@)
    } else if name == "savegame4.bin"@ {
        Some("savefile3.json"@)
    } else {
        None
    }
}

/// The path that the JSON is written to. There is none where `.json` is to
/// be added to the input path and the extension that it would get holds a
/// separator.
pub open spec fn output_of(input_path: Seq<char>, output_path: Option<Seq<char>>) -> Option<
    Seq<char>,
> {
    let added = if may_add(input_path, "json"@) {
        Some(with_extension_of(input_path, added_extension(extension_of(input_path), "json"@)))
    } else {
        None
    };
    match output_path {
        Some(path) => Some(path),
        None => match file_name_of(input_path) {
            Some(name) => match converted_name_of(name) {
                Some(new_name) => Some(with_file_name_of(input_path, new_name)),
                None => added,
            },
            None => added,
        },
    }
}

/// The JSON form of a save with the data `data`. The wrapper keeps its own
/// order, the version first: only what is decoded stands in the order of its
/// names.
pub open spec fn wrapped(data: Tree) -> Tree {
    Tree::Object(seq![(VERSION_KEY@, Tree::Int(VERSION)), (SAVE_DATA_KEY@, data)])
}

/// Whether a conversion did what is asked for. An input that is shorter than
/// its first word fails before anything is decoded. Otherwise the value behind
/// the first word is decoded: a failure is handed on, and a value is wrapped
/// and sent to the output path, if one can be named.
pub open spec fn converted(
    done: Result<Conversion, ConvertError>,
    ops: Ops,
    input: Seq<u8>,
    notes_before: Seq<Note>,
    notes_after: Seq<Note>,
) -> bool {
    if input.len() < 4 {
        done == Err::<Conversion, ConvertError>(ConvertError::Header) && notes_after == notes_before
    } else {
        let decoding = value_at(input, 4, notes_before);
        &&& notes_after == decoding.notes
        &&& match decoding.outcome {
            Err(failure) => done matches Err(ConvertError::Data(e)) && e@ == failure,
            Ok(tree) => match output_of(ops.input_path@, text_of(ops.output_path)) {
                Some(path) => done matches Ok(conversion) && conversion.json@ == wrapped(tree)
                    && conversion.output_path@ == path,
                None => done == Err::<Conversion, ConvertError>(ConvertError::OutputPath),
            },
        }
    }
}

/// The name that the game gives to the JSON save of the slot of a binary
/// save, for a file that is named like a binary save.
pub fn converted_name(name: &str) -> (new_name: Option<String>)
    ensures
        text_of(new_name) == converted_name_of(name@),
{
    if same_text(name, "savegame.bin") {
        Some("savefile0.json".to_owned())
    } else if same_text(name, "savegame2.bin") {
        Some("savefile1.json".to_owned())
    } else if same_text(name, "savegame3.bin") {
        Some("savefile2.json".to_owned())
    } else if same_text(name, "savegame4.bin") {
        Some("savefile3.json".to_owned())
    } else {
        None
    }
}

/// The path that the JSON is written to, if one can be named.
pub fn output_path(ops: &Ops) -> (path: Option<String>)
    ensures
        text_of(path) == output_of(ops.input_path@, text_of(ops.output_path)),
{
    if let Some(path) = &ops.output_path {
        return Some(path.clone());
    }
    let input_path = ops.input_path.as_str();
    if let Some(name) = path_file_name(input_path) {
        if let Some(new_name) = converted_name(name.as_str()) {
            return Some(path_with_file_name(input_path, new_name.as_str()));
        }
    }
    try_added_extension(input_path, "json")
}

/// The JSON form of a save with the data `data`: an object of the version
/// and the data, in this order.
pub fn wrap(data: Value) -> (json: Value)
    ensures
        json@ == wrapped(data@),
{
    let mut fields: Vec<(String, Value)> = Vec::new();
    fields.push((VERSION_KEY.to_owned(), Value::Int(VERSION)));
    fields.push((SAVE_DATA_KEY.to_owned(), data));
    proof {
        lemma_object_view(fields);
        assert(fields_of(fields@) =~= seq![
            (VERSION_KEY@, Tree::Int(VERSION)),
            (SAVE_DATA_KEY@, data@),
        ]);
    }
    Value::Object(fields)
}

/// Converts the binary save `input`: skips the word that gives the size of
/// the data, decodes the value behind it, wraps it, and names the path that
/// the JSON goes to. The remarks of the decoder are added to `warnings`.
pub fn handler(ops: Ops, input: Vec<u8>, warnings: &mut Vec<Warning>) -> (done: Result<
    Conversion,
    ConvertError,
>)
    ensures
        converted(done, ops, input@, notes_of(old(warnings)@), notes_of(final(warnings)@)),
{
    let mut reader = Reader::new(input);
    if read4b(&mut reader).is_err() {
        return Err(ConvertError::Header);
    }
    let data = match read_value(&mut reader, warnings) {
        Ok(data) => data,
        Err(e) => {
            return Err(ConvertError::Data(e));
        },
    };
    let json = wrap(data);
    match output_path(&ops) {
        Some(output_path) => Ok(Conversion { output_path, json }),
        None => Err(ConvertError::OutputPath),
    }
}

} // verus!
