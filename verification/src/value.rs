//! The decoded value tree, and what a decode reports beside it.

use crate::reader::ErrorKind;
use crate::text::{lemma_text_before_total, text_before};
use vstd::prelude::*;

verus! {

/// The mathematical model of a value. An object is the list of its fields as
/// they stand; a single-precision number is held by its bits. In a value that
/// the decoder gives, the fields of every object stand in the order of their
/// names, each name once: see `well_formed`.
pub enum Tree {
    Null,
    Bool(bool),
    Int(u32),
    Single(u32),
    Str(Seq<char>),
    Array(Seq<Tree>),
    Object(Seq<(Seq<char>, Tree)>),
}

/// A value as a save holds it. `Null` stands for a value that the format
/// holds no data for; inside an object or an array the decoder leaves such
/// values out.
#[derive(Debug, PartialEq)]
pub enum Value {
    Null,
    Bool(bool),
    Int(u32),
    /// A single-precision number, by its bits.
    Single(u32),
    String(String),
    Array(Vec<Value>),
    /// The fields of an object, as they stand. The decoder gives them in the
    /// order of their names; whoever builds an object by hand decides on
    /// their order.
    Object(Vec<(String, Value)>),
}

/// The model of a run of values.
pub open spec fn trees_of(items: Seq<Value>) -> Seq<Tree> {
    Seq::new(items.len(), |i: int| items[i]@)
}

/// The model of a run of fields.
pub open spec fn fields_of(fields: Seq<(String, Value)>) -> Seq<(Seq<char>, Tree)> {
    Seq::new(fields.len(), |i: int| (fields[i].0@, fields[i].1@))
}

/// The model of a value.
pub open spec fn tree_of(value: Value) -> Tree
    decreases value,
{
    match value {
        Value::Null => Tree::Null,
        Value::Bool(b) => Tree::Bool(b),
        Value::Int(n) => Tree::Int(n),
        Value::Single(bits) => Tree::Single(bits),
        Value::String(s) => Tree::Str(s@),
        Value::Array(items) => Tree::Array(
            Seq::new(
                items@.len(),
                |i: int|
                    if 0 <= i < items@.len() {
                        tree_of(items@[i])
                    } else {
                        Tree::Null
                    },
            ),
        ),
        Value::Object(fields) => Tree::Object(
            Seq::new(
                fields@.len(),
                |i: int|
                    if 0 <= i < fields@.len() {
                        (fields@[i].0@, tree_of(fields@[i].1))
                    } else {
                        (Seq::empty(), Tree::Null)
                    },
            ),
        ),
    }
}

impl View for Value {
    type V = Tree;

    open spec fn view(&self) -> Tree {
        tree_of(*self)
    }
}

/// The model of an array is the models of its items.
pub proof fn lemma_array_view(items: Vec<Value>)
    ensures
        Value::Array(items)@ == Tree::Array(trees_of(items@)),
{
    assert(tree_of(Value::Array(items))->Array_0 =~= trees_of(items@));
}

/// The model of an object is the models of its fields.
pub proof fn lemma_object_view(fields: Vec<(String, Value)>)
    ensures
        Value::Object(fields)@ == Tree::Object(fields_of(fields@)),
{
    assert(tree_of(Value::Object(fields))->Object_0 =~= fields_of(fields@));
}

/// Whether some field is named `key`.
pub open spec fn has_key<V>(fields: Seq<(Seq<char>, V)>, key: Seq<char>) -> bool {
    exists|i: int| 0 <= i < fields.len() && (#[trigger] fields[i]).0 == key
}

/// Whether the field at `i` is the first one that is named `key`.
pub open spec fn is_first<V>(fields: Seq<(Seq<char>, V)>, key: Seq<char>, i: int) -> bool {
    &&& 0 <= i < fields.len()
    &&& fields[i].0 == key
    &&& forall|j: int| 0 <= j < i ==> (#[trigger] fields[j]).0 != key
}

/// The index of the first field that is named `key`.
pub open spec fn first_index<V>(fields: Seq<(Seq<char>, V)>, key: Seq<char>) -> int {
    choose|i: int| is_first(fields, key, i)
}

/// The value of the field that is named `key`.
pub open spec fn field(fields: Seq<(Seq<char>, Tree)>, key: Seq<char>) -> Option<Tree> {
    if has_key(fields, key) {
        Some(fields[first_index(fields, key)].1)
    } else {
        None
    }
}

/// The names of the fields stand in their order, each before those behind
/// it, so that no two fields have the same name.
pub open spec fn sorted_keys(fields: Seq<(Seq<char>, Tree)>) -> bool {
    forall|i: int, j: int|
        0 <= i < j < fields.len() ==> text_before(
            (#[trigger] fields[i]).0,
            (#[trigger] fields[j]).0,
        )
}

/// Whether `i` is the place of `key` among the fields: the names in front of
/// it come before `key`, and the name at it does not.
pub open spec fn is_slot(fields: Seq<(Seq<char>, Tree)>, key: Seq<char>, i: int) -> bool {
    &&& 0 <= i <= fields.len()
    &&& forall|j: int| 0 <= j < i ==> text_before((#[trigger] fields[j]).0, key)
    &&& (i == fields.len() || !text_before(fields[i].0, key))
}

/// The place of `key` among the fields.
pub open spec fn slot_of(fields: Seq<(Seq<char>, Tree)>, key: Seq<char>) -> int {
    choose|i: int| is_slot(fields, key, i)
}

/// The fields with `key` set to `tree`: a field of that name takes the new
/// value, and a new name goes to its place in the order of the names.
pub open spec fn put(fields: Seq<(Seq<char>, Tree)>, key: Seq<char>, tree: Tree) -> Seq<
    (Seq<char>, Tree),
> {
    let at = slot_of(fields, key);
    if at < fields.len() && fields[at].0 == key {
        fields.update(at, (key, tree))
    } else {
        fields.insert(at, (key, tree))
    }
}

/// A value that may stand in an object or an array: it is not `Null`, and is
/// well formed itself.
pub open spec fn holds(tree: Tree) -> bool
    decreases tree, 1nat,
{
    tree != Tree::Null && well_formed(tree)
}

/// The fields of every object in the tree stand in the order of their names,
/// each name once, and no object and no array in it holds `Null`.
pub open spec fn well_formed(tree: Tree) -> bool
    decreases tree, 0nat,
{
    match tree {
        Tree::Array(items) => forall|i: int| 0 <= i < items.len() ==> holds(#[trigger] items[i]),
        Tree::Object(fields) => sorted_keys(fields) && forall|i: int|
            0 <= i < fields.len() ==> holds((#[trigger] fields[i]).1),
        _ => true,
    }
}

/// Where a name occurs, its first index is the only index at which `is_first`
/// holds.
pub proof fn lemma_first_index<V>(fields: Seq<(Seq<char>, V)>, key: Seq<char>, i: int)
    requires
        is_first(fields, key, i),
    ensures
        has_key(fields, key),
        first_index(fields, key) == i,
{
    let k = first_index(fields, key);
    assert(is_first(fields, key, k));
    if k < i {
        assert(fields[k].0 != key);
    }
    if i < k {
        assert(fields[i].0 != key);
    }
}

/// A name has no more than one place among the fields.
pub proof fn lemma_slot(fields: Seq<(Seq<char>, Tree)>, key: Seq<char>, i: int)
    requires
        is_slot(fields, key, i),
    ensures
        slot_of(fields, key) == i,
{
    let k = slot_of(fields, key);
    assert(is_slot(fields, key, k));
    if k < i {
        assert(text_before(fields[k].0, key));
    }
    if i < k {
        assert(text_before(fields[i].0, key));
    }
}

/// Every name has a place among the fields.
pub proof fn lemma_slot_exists(fields: Seq<(Seq<char>, Tree)>, key: Seq<char>)
    ensures
        is_slot(fields, key, slot_of(fields, key)),
{
    lemma_slot_from(fields, key, 0);
}

/// A name has a place at or behind `i` where the names in front of `i` come
/// before it.
proof fn lemma_slot_from(fields: Seq<(Seq<char>, Tree)>, key: Seq<char>, i: int)
    requires
        0 <= i <= fields.len(),
        forall|j: int| 0 <= j < i ==> text_before((#[trigger] fields[j]).0, key),
    ensures
        is_slot(fields, key, slot_of(fields, key)),
    decreases fields.len() - i,
{
    if i == fields.len() || !text_before(fields[i].0, key) {
        assert(is_slot(fields, key, i));
    } else {
        lemma_slot_from(fields, key, i + 1);
    }
}

/// In fields that stand in the order of their names, a name that occurs
/// stands at its place, and first occurs there.
pub proof fn lemma_slot_of_key(fields: Seq<(Seq<char>, Tree)>, key: Seq<char>, i: int)
    requires
        sorted_keys(fields),
        0 <= i < fields.len(),
        fields[i].0 == key,
    ensures
        slot_of(fields, key) == i,
        is_first(fields, key, i),
{
    lemma_text_before_total(key, key, key);
    assert forall|j: int| 0 <= j < i implies (#[trigger] fields[j]).0 != key by {
        assert(text_before(fields[j].0, fields[i].0));
    }
    assert(is_slot(fields, key, i));
    lemma_slot(fields, key, i);
}

/// Setting a field keeps the names in their order, and afterwards the object
/// holds the new value under that name and what it held before under every
/// other. The object grows by one field where the name is new.
pub proof fn lemma_put(fields: Seq<(Seq<char>, Tree)>, key: Seq<char>, tree: Tree, other: Seq<char>)
    requires
        sorted_keys(fields),
    ensures
        sorted_keys(put(fields, key, tree)),
        field(put(fields, key, tree), key) == Some(tree),
        other != key ==> field(put(fields, key, tree), other) == field(fields, other),
        put(fields, key, tree).len() == if has_key(fields, key) {
            fields.len()
        } else {
            fields.len() + 1
        },
{
    let after = put(fields, key, tree);
    lemma_slot_exists(fields, key);
    let at = slot_of(fields, key);
    if has_key(fields, key) {
        let i = choose|i: int| 0 <= i < fields.len() && (#[trigger] fields[i]).0 == key;
        lemma_slot_of_key(fields, key, i);
    }
    if at < fields.len() && fields[at].0 == key {
        assert(after[at] == (key, tree));
        assert forall|i: int, j: int| 0 <= i < j < after.len() implies text_before(
            (#[trigger] after[i]).0,
            (#[trigger] after[j]).0,
        ) by {
            assert(text_before(fields[i].0, fields[j].0));
        }
        lemma_slot_of_key(after, key, at);
        lemma_first_index(after, key, at);
        if other != key {
            if has_key(fields, other) {
                let o = choose|o: int| 0 <= o < fields.len() && (#[trigger] fields[o]).0 == other;
                lemma_slot_of_key(fields, other, o);
                lemma_first_index(fields, other, o);
                assert(after[o] == fields[o]);
                lemma_slot_of_key(after, other, o);
                lemma_first_index(after, other, o);
            } else if has_key(after, other) {
                let o = choose|o: int| 0 <= o < after.len() && (#[trigger] after[o]).0 == other;
                assert(fields[o].0 == other);
            }
        }
    } else {
        assert(after[at] == (key, tree));
        assert forall|j: int| at <= j < fields.len() implies text_before(
            key,
            (#[trigger] fields[j]).0,
        ) by {
            lemma_text_before_total(key, fields[at].0, fields[j].0);
            lemma_text_before_total(fields[at].0, key, key);
            if j > at {
                assert(text_before(fields[at].0, fields[j].0));
            }
        }
        assert forall|i: int, j: int| 0 <= i < j < after.len() implies text_before(
            (#[trigger] after[i]).0,
            (#[trigger] after[j]).0,
        ) by {
            if j < at {
                assert(after[i] == fields[i] && after[j] == fields[j]);
                assert(text_before(fields[i].0, fields[j].0));
            } else if j == at {
                assert(after[i] == fields[i]);
                assert(text_before(fields[i].0, key));
            } else if i < at {
                assert(after[i] == fields[i] && after[j] == fields[j - 1]);
                if at <= j - 1 {
                    assert(text_before(fields[i].0, key));
                    assert(text_before(key, fields[j - 1].0));
                    lemma_text_before_total(fields[i].0, key, fields[j - 1].0);
                }
            } else if i == at {
                assert(after[j] == fields[j - 1]);
                assert(text_before(key, fields[j - 1].0));
            } else {
                assert(after[i] == fields[i - 1] && after[j] == fields[j - 1]);
                assert(text_before(fields[i - 1].0, fields[j - 1].0));
            }
        }
        lemma_slot_of_key(after, key, at);
        lemma_first_index(after, key, at);
        if has_key(fields, key) {
            assert(false);
        }
        if other != key {
            if has_key(fields, other) {
                let o = choose|o: int| 0 <= o < fields.len() && (#[trigger] fields[o]).0 == other;
                lemma_slot_of_key(fields, other, o);
                lemma_first_index(fields, other, o);
                let moved = if o < at {
                    o
                } else {
                    o + 1
                };
                assert(after[moved] == fields[o]);
                lemma_slot_of_key(after, other, moved);
                lemma_first_index(after, other, moved);
            } else if has_key(after, other) {
                let o = choose|o: int| 0 <= o < after.len() && (#[trigger] after[o]).0 == other;
                if o < at {
                    assert(fields[o].0 == other);
                } else {
                    assert(fields[o - 1].0 == other);
                }
            }
        }
    }
}

/// Setting a field brings in nothing but the new field.
pub proof fn lemma_put_fields(fields: Seq<(Seq<char>, Tree)>, key: Seq<char>, tree: Tree)
    ensures
        forall|j: int|
            0 <= j < put(fields, key, tree).len() ==> (#[trigger] put(fields, key, tree)[j]) == (
                key,
                tree,
            ) || fields.contains(put(fields, key, tree)[j]),
{
    let after = put(fields, key, tree);
    lemma_slot_exists(fields, key);
    let at = slot_of(fields, key);
    assert forall|j: int| 0 <= j < after.len() implies (#[trigger] after[j]) == (key, tree)
        || fields.contains(after[j]) by {
        if at < fields.len() && fields[at].0 == key {
            if j != at {
                assert(after[j] == fields[j]);
            }
        } else if j < at {
            assert(after[j] == fields[j]);
        } else if j > at {
            assert(after[j] == fields[j - 1]);
        }
    }
}

/// A remark that the decoder makes while it goes on.
#[derive(Debug, PartialEq)]
pub enum Warning {
    /// A value of the kind `0x03`, of unknown meaning, was skipped; `raw` is
    /// its payload, read as a little-endian number.
    Unknown3 { raw: u32 },
    /// A value of the kind `0x12`, which holds no data, was skipped.
    Reference,
    /// The field `name`, the `index`-th of its object, held no value and was
    /// left out.
    NullField { name: String, index: u32 },
    /// The `index`-th element of an array held no value and was left out.
    NullElement { index: u32 },
}

/// The model of a [`Warning`].
pub enum Note {
    Unknown3 { raw: u32 },
    Reference,
    NullField { name: Seq<char>, index: u32 },
    NullElement { index: u32 },
}

impl View for Warning {
    type V = Note;

    open spec fn view(&self) -> Note {
        match self {
            Warning::Unknown3 { raw } => Note::Unknown3 { raw: *raw },
            Warning::Reference => Note::Reference,
            Warning::NullField { name, index } => Note::NullField { name: name@, index: *index },
            Warning::NullElement { index } => Note::NullElement { index: *index },
        }
    }
}

/// The model of a run of warnings.
pub open spec fn notes_of(warnings: Seq<Warning>) -> Seq<Note> {
    Seq::new(warnings.len(), |i: int| warnings[i]@)
}

/// One level of the way from the top of a save down to where a decode failed.
#[derive(Debug, PartialEq)]
pub enum PathStep {
    /// The name of the `index`-th field of an object.
    FieldName { index: u32 },
    /// The value of the field `name`, the `index`-th of an object.
    FieldValue { name: String, index: u32 },
    /// The `index`-th element of an array.
    Element { index: u32 },
}

/// The model of a [`PathStep`].
pub enum Step {
    FieldName { index: u32 },
    FieldValue { name: Seq<char>, index: u32 },
    Element { index: u32 },
}

impl View for PathStep {
    type V = Step;

    open spec fn view(&self) -> Step {
        match self {
            PathStep::FieldName { index } => Step::FieldName { index: *index },
            PathStep::FieldValue { name, index } => Step::FieldValue { name: name@, index: *index },
            PathStep::Element { index } => Step::Element { index: *index },
        }
    }
}

/// The model of a path.
pub open spec fn steps_of(path: Seq<PathStep>) -> Seq<Step> {
    Seq::new(path.len(), |i: int| path[i]@)
}

/// A failed decode: what went wrong, and the way from the top of the save
/// down to the place, outermost level first.
#[derive(Debug, PartialEq)]
pub struct DecodeError {
    pub kind: ErrorKind,
    pub path: Vec<PathStep>,
}

/// The model of a [`DecodeError`].
pub struct Failure {
    pub kind: ErrorKind,
    pub path: Seq<Step>,
}

impl Failure {
    /// A failure at the place where the decoder stands.
    pub open spec fn here(kind: ErrorKind) -> Failure {
        Failure { kind, path: Seq::empty() }
    }

    /// The failure as the level above sees it.
    pub open spec fn under(self, step: Step) -> Failure {
        Failure { kind: self.kind, path: seq![step] + self.path }
    }
}

impl View for DecodeError {
    type V = Failure;

    open spec fn view(&self) -> Failure {
        Failure { kind: self.kind, path: steps_of(self.path@) }
    }
}

impl DecodeError {
    /// A failure at the place where the decoder stands.
    pub fn here(kind: ErrorKind) -> (error: DecodeError)
        ensures
            error@ == Failure::here(kind),
    {
        let error = DecodeError { kind, path: Vec::new() };
        assert(error@.path =~= Seq::empty());
        error
    }

    /// The failure as the level above sees it.
    pub fn under(self, step: PathStep) -> (error: DecodeError)
        ensures
            error@ == self@.under(step@),
    {
        let mut path = self.path;
        path.insert(0, step);
        let error = DecodeError { kind: self.kind, path };
        assert(error@.path =~= self@.under(step@).path);
        error
    }
}

} // verus!
