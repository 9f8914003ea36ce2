//! The names of the fields of an object while it is read.
//!
//! The names are kept in serde_json's map, which is built so that it holds its
//! entries in the order in which they came up (its feature `preserve_order`),
//! and sorts them when it is asked to. The map cannot hold the values of the
//! library, so it holds a number for each name, and the value stands under
//! that number in a list beside it.

use crate::text::{lemma_text_before_total, text_before};
use crate::value::{
    field, fields_of, first_index, has_key, is_first, lemma_first_index, lemma_put,
    lemma_put_fields, lemma_slot_of_key, put, sorted_keys, Tree, Value,
};
use vstd::prelude::*;

verus! {

/// The names of the fields of an object, each with a number: a map of
/// serde_json. What it holds is not seen from here but through `entries_of`.
#[verifier::external_body]
pub struct NameIndex {
    map: serde_json::Map<String, serde_json::Value>,
}

/// The names that the index holds, in their order, each with its number.
pub uninterp spec fn entries_of(index: NameIndex) -> Seq<(Seq<char>, u64)>;

/// The entries with `name` set to `number`: a name that is there keeps its
/// place and takes the new number, and a new name goes to the end.
pub open spec fn set_entry(entries: Seq<(Seq<char>, u64)>, name: Seq<char>, number: u64) -> Seq<
    (Seq<char>, u64),
> {
    if has_key(entries, name) {
        entries.update(first_index(entries, name), (name, number))
    } else {
        entries.push((name, number))
    }
}

/// No name of the entries comes before one in front of it.
pub open spec fn ascending(entries: Seq<(Seq<char>, u64)>) -> bool {
    forall|i: int, j: int|
        0 <= i < j < entries.len() ==> !text_before(
            (#[trigger] entries[j]).0,
            (#[trigger] entries[i]).0,
        )
}

/// The names and numbers of a run of entries.
pub open spec fn numbered(entries: Seq<(String, u64)>) -> Seq<(Seq<char>, u64)> {
    Seq::new(entries.len(), |i: int| (entries[i].0@, entries[i].1))
}

/// `Map::new` of serde_json: a map without entries.
#[verifier::external_body]
fn index_new() -> (index: NameIndex)
    ensures
        entries_of(index) == Seq::<(Seq<char>, u64)>::empty(),
{
    NameIndex { map: serde_json::Map::new() }
}

/// `Map::insert` of serde_json, with the number for the value. The map keeps
/// the order of its entries: a key that is there keeps its place and takes
/// the new value, and a new key goes behind the others.
#[verifier::external_body]
fn index_insert(index: &mut NameIndex, name: String, number: u64)
    ensures
        entries_of(*final(index)) == set_entry(entries_of(*old(index)), name@, number),
{
    index.map.insert(name, serde_json::Value::from(number));
}

/// `Map::sort_keys` of serde_json, which sorts the entries by their keys as
/// strings compare: afterwards the map holds the same entries, each as often
/// as before, and no key comes before one in front of it.
#[verifier::external_body]
fn index_sort_keys(index: &mut NameIndex)
    ensures
        entries_of(*final(index)).to_multiset() == entries_of(*old(index)).to_multiset(),
        ascending(entries_of(*final(index))),
{
    index.map.sort_keys();
}

/// `Map::into_iter` of serde_json: the entries of the map in their order,
/// each value as the number that it was put in as.
#[verifier::external_body]
fn index_entries(index: NameIndex) -> (entries: Vec<(String, u64)>)
    ensures
        numbered(entries@) == entries_of(index),
{
    index.map.into_iter().map(|(name, number)| (name, number.as_u64().unwrap_or_default())).collect()
}

/// Whether the entries and the values under their numbers hold what the
/// fields hold: the same names, each once and with a number of its own, and
/// under each name the same value.
pub open spec fn tracks(
    entries: Seq<(Seq<char>, u64)>,
    values: Seq<Option<Value>>,
    fields: Seq<(Seq<char>, Tree)>,
) -> bool {
    &&& entries.len() == fields.len()
    &&& forall|i: int, j: int|
        0 <= i < j < entries.len() ==> (#[trigger] entries[i]).0 != (#[trigger] entries[j]).0
    &&& forall|i: int, j: int|
        0 <= i < j < entries.len() ==> (#[trigger] entries[i]).1 != (#[trigger] entries[j]).1
    &&& forall|i: int| 0 <= i < entries.len() ==> kept_at(values, fields, #[trigger] entries[i])
    &&& forall|j: int| 0 <= j < fields.len() ==> has_key(entries, (#[trigger] fields[j]).0)
}

/// Whether the value of an entry stands under its number, and is the value
/// that the fields hold under its name.
pub open spec fn kept_at(
    values: Seq<Option<Value>>,
    fields: Seq<(Seq<char>, Tree)>,
    entry: (Seq<char>, u64),
) -> bool {
    &&& entry.1 < values.len()
    &&& values[entry.1 as int] matches Some(value)
    &&& field(fields, entry.0) == Some(value@)
}

/// In entries that hold each name once, a name stands first where it stands.
proof fn lemma_only_index(entries: Seq<(Seq<char>, u64)>, name: Seq<char>, i: int)
    requires
        forall|i: int, j: int|
            0 <= i < j < entries.len() ==> (#[trigger] entries[i]).0 != (#[trigger] entries[j]).0,
        0 <= i < entries.len(),
        entries[i].0 == name,
    ensures
        has_key(entries, name),
        first_index(entries, name) == i,
{
    assert forall|j: int| 0 <= j < i implies (#[trigger] entries[j]).0 != name by {
        assert(entries[j].0 != entries[i].0);
    }
    assert(is_first(entries, name, i));
    lemma_first_index(entries, name, i);
}

/// A name is among the entries where it is among the fields.
proof fn lemma_same_names(
    entries: Seq<(Seq<char>, u64)>,
    values: Seq<Option<Value>>,
    fields: Seq<(Seq<char>, Tree)>,
    name: Seq<char>,
)
    requires
        tracks(entries, values, fields),
    ensures
        has_key(entries, name) <==> has_key(fields, name),
{
    if has_key(entries, name) {
        let i = choose|i: int| 0 <= i < entries.len() && (#[trigger] entries[i]).0 == name;
        assert(kept_at(values, fields, entries[i]));
    }
    if has_key(fields, name) {
        let j = choose|j: int| 0 <= j < fields.len() && (#[trigger] fields[j]).0 == name;
        assert(has_key(entries, fields[j].0));
    }
}

/// What tracks the fields goes on doing so when a field is set: the name
/// takes the next number, under which the value is put.
proof fn lemma_track_step(
    entries: Seq<(Seq<char>, u64)>,
    values: Seq<Option<Value>>,
    fields: Seq<(Seq<char>, Tree)>,
    name: Seq<char>,
    value: Value,
)
    requires
        tracks(entries, values, fields),
        sorted_keys(fields),
        values.len() <= u64::MAX,
        forall|i: int| 0 <= i < entries.len() ==> (#[trigger] entries[i]).1 < values.len(),
    ensures
        tracks(
            set_entry(entries, name, values.len() as u64),
            values.push(Some(value)),
            put(fields, name, value@),
        ),
        sorted_keys(put(fields, name, value@)),
{
    let number = values.len() as u64;
    let after = set_entry(entries, name, number);
    let more = values.push(Some(value));
    let grown = put(fields, name, value@);
    lemma_same_names(entries, values, fields, name);
    lemma_put(fields, name, value@, name);
    lemma_put_fields(fields, name, value@);
    let at = if has_key(entries, name) {
        first_index(entries, name)
    } else {
        entries.len() as int
    };
    if has_key(entries, name) {
        let i = choose|i: int| 0 <= i < entries.len() && (#[trigger] entries[i]).0 == name;
        lemma_only_index(entries, name, i);
    }
    assert(after[at] == (name, number));
    assert forall|i: int| 0 <= i < after.len() && i != at implies #[trigger] after[i]
        == entries[i] && after[i].0 != name && after[i].1 != number by {
        assert(kept_at(values, fields, entries[i]));
        if has_key(entries, name) {
            assert(entries[i].0 != entries[at].0);
        } else {
            if entries[i].0 == name {
                assert(has_key(entries, name));
            }
        }
    }
    assert forall|i: int| 0 <= i < after.len() implies kept_at(more, grown, #[trigger] after[i]) by {
        if i == at {
            assert(more[number as int] == Some(value));
        } else {
            assert(after[i] == entries[i]);
            assert(kept_at(values, fields, entries[i]));
            lemma_put(fields, name, value@, entries[i].0);
            assert(more[entries[i].1 as int] == values[entries[i].1 as int]);
        }
    }
    assert forall|j: int| 0 <= j < grown.len() implies has_key(after, (#[trigger] grown[j]).0) by {
        if grown[j] == (name, value@) {
            assert(after[at].0 == name);
        } else {
            let k = choose|k: int| 0 <= k < fields.len() && fields[k] == grown[j];
            assert(has_key(entries, fields[k].0));
            let i = choose|i: int| 0 <= i < entries.len() && (#[trigger] entries[i]).0 == fields[k].0;
            if i == at {
                assert(after[at].0 == name);
                assert(entries[at].0 == name);
            } else {
                assert(after[i] == entries[i]);
            }
        }
    }
    assert forall|i: int, j: int| 0 <= i < j < after.len() implies (#[trigger] after[i]).0 != (
    #[trigger] after[j]).0 by {
        if i != at && j != at {
            assert(entries[i].0 != entries[j].0);
        }
    }
    assert forall|i: int, j: int| 0 <= i < j < after.len() implies (#[trigger] after[i]).1 != (
    #[trigger] after[j]).1 by {
        if i != at && j != at {
            assert(entries[i].1 != entries[j].1);
        }
    }
}

/// What tracks the fields goes on doing so when the entries are put in the
/// order of their names, and each name then comes before those behind it.
proof fn lemma_track_sorted(
    entries: Seq<(Seq<char>, u64)>,
    sorted: Seq<(Seq<char>, u64)>,
    values: Seq<Option<Value>>,
    fields: Seq<(Seq<char>, Tree)>,
)
    requires
        tracks(entries, values, fields),
        sorted.to_multiset() == entries.to_multiset(),
        ascending(sorted),
    ensures
        tracks(sorted, values, fields),
        forall|i: int, j: int|
            0 <= i < j < sorted.len() ==> text_before(
                (#[trigger] sorted[i]).0,
                (#[trigger] sorted[j]).0,
            ),
{
    broadcast use vstd::seq_lib::group_to_multiset_ensures;

    sorted.to_multiset_ensures();
    entries.to_multiset_ensures();
    assert(sorted.len() == entries.len());
    assert(entries.no_duplicates()) by {
        assert forall|i: int, j: int|
            0 <= i < entries.len() && 0 <= j < entries.len() && i != j implies entries[i]
            != entries[j] by {
            if i < j {
                assert(entries[i].0 != entries[j].0);
            } else {
                assert(entries[j].0 != entries[i].0);
            }
        }
    }
    entries.lemma_multiset_has_no_duplicates();
    sorted.lemma_multiset_has_no_duplicates_conv();
    assert forall|i: int| 0 <= i < sorted.len() implies entries.contains(#[trigger] sorted[i]) by {
        assert(sorted.contains(sorted[i]));
        assert(sorted.to_multiset().count(sorted[i]) > 0);
    }
    assert forall|i: int| 0 <= i < entries.len() implies sorted.contains(#[trigger] entries[i]) by {
        assert(entries.contains(entries[i]));
        assert(entries.to_multiset().count(entries[i]) > 0);
    }
    assert forall|i: int, j: int| 0 <= i < j < sorted.len() implies (#[trigger] sorted[i]).0 != (
    #[trigger] sorted[j]).0 && sorted[i].1 != sorted[j].1 by {
        assert(entries.contains(sorted[i]));
        assert(entries.contains(sorted[j]));
        let p = choose|p: int| 0 <= p < entries.len() && entries[p] == sorted[i];
        let q = choose|q: int| 0 <= q < entries.len() && entries[q] == sorted[j];
        assert(sorted[i] != sorted[j]);
        if p < q {
            assert(entries[p].0 != entries[q].0 && entries[p].1 != entries[q].1);
        } else if q < p {
            assert(entries[q].0 != entries[p].0 && entries[q].1 != entries[p].1);
        }
    }
    assert forall|i: int| 0 <= i < sorted.len() implies kept_at(
        values,
        fields,
        #[trigger] sorted[i],
    ) by {
        assert(entries.contains(sorted[i]));
        let p = choose|p: int| 0 <= p < entries.len() && entries[p] == sorted[i];
        assert(kept_at(values, fields, entries[p]));
    }
    assert forall|j: int| 0 <= j < fields.len() implies has_key(sorted, (#[trigger] fields[j]).0) by {
        assert(has_key(entries, fields[j].0));
        let i = choose|i: int| 0 <= i < entries.len() && (#[trigger] entries[i]).0 == fields[j].0;
        assert(sorted.contains(entries[i]));
        let k = choose|k: int| 0 <= k < sorted.len() && sorted[k] == entries[i];
        assert(sorted[k].0 == fields[j].0);
    }
    assert forall|i: int, j: int| 0 <= i < j < sorted.len() implies text_before(
        (#[trigger] sorted[i]).0,
        (#[trigger] sorted[j]).0,
    ) by {
        lemma_text_before_total(sorted[i].0, sorted[j].0, sorted[i].0);
    }
}

/// Entries that track fields and stand in the order of their names, as the
/// fields do, name the fields one by one up to `k`.
proof fn lemma_names_agree(
    entries: Seq<(Seq<char>, u64)>,
    values: Seq<Option<Value>>,
    fields: Seq<(Seq<char>, Tree)>,
    k: int,
)
    requires
        tracks(entries, values, fields),
        sorted_keys(fields),
        forall|i: int, j: int|
            0 <= i < j < entries.len() ==> text_before(
                (#[trigger] entries[i]).0,
                (#[trigger] entries[j]).0,
            ),
        0 <= k <= entries.len(),
    ensures
        forall|j: int| 0 <= j < k ==> (#[trigger] entries[j]).0 == fields[j].0,
    decreases k,
{
    if k > 0 {
        lemma_names_agree(entries, values, fields, k - 1);
        let at = k - 1;
        let a = entries[at].0;
        let b = fields[at].0;
        if a != b {
            lemma_same_names(entries, values, fields, a);
            lemma_same_names(entries, values, fields, b);
            assert(has_key(entries, a));
            assert(has_key(entries, fields[at].0));
            let p = choose|p: int| 0 <= p < entries.len() && (#[trigger] entries[p]).0 == b;
            let q = choose|q: int| 0 <= q < fields.len() && (#[trigger] fields[q]).0 == a;
            lemma_text_before_total(a, b, a);
            lemma_text_before_total(b, a, b);
            lemma_text_before_total(a, a, a);
            lemma_text_before_total(b, b, b);
            if p < at {
                assert(entries[p].0 == fields[p].0);
                assert(text_before(fields[p].0, fields[at].0));
            } else if p > at {
                assert(text_before(entries[at].0, entries[p].0));
            }
            if q < at {
                assert(entries[q].0 == fields[q].0);
                assert(text_before(entries[q].0, entries[at].0));
            } else if q > at {
                assert(text_before(fields[at].0, fields[q].0));
            }
        }
    }
}

/// Entries that track fields and stand in the order of their names, as the
/// fields do, hold the fields one by one: each entry names the field of its
/// place, and the value of that field stands under its number.
proof fn lemma_tracked_fields(
    entries: Seq<(Seq<char>, u64)>,
    values: Seq<Option<Value>>,
    fields: Seq<(Seq<char>, Tree)>,
)
    requires
        tracks(entries, values, fields),
        sorted_keys(fields),
        forall|i: int, j: int|
            0 <= i < j < entries.len() ==> text_before(
                (#[trigger] entries[i]).0,
                (#[trigger] entries[j]).0,
            ),
    ensures
        forall|j: int|
            0 <= j < entries.len() ==> (#[trigger] entries[j]).0 == fields[j].0 && entries[j].1
                < values.len() && (values[entries[j].1 as int] matches Some(value) && value@
                == fields[j].1),
{
    lemma_names_agree(entries, values, fields, entries.len() as int);
    assert forall|j: int| 0 <= j < entries.len() implies (#[trigger] entries[j]).0 == fields[j].0
        && entries[j].1 < values.len() && (values[entries[j].1 as int] matches Some(value)
        && value@ == fields[j].1) by {
        assert(kept_at(values, fields, entries[j]));
        lemma_slot_of_key(fields, fields[j].0, j);
        lemma_first_index(fields, fields[j].0, j);
    }
}

/// An index without names.
pub(crate) fn no_fields() -> (index: NameIndex)
    ensures
        tracks(entries_of(index), Seq::empty(), Seq::empty()),
{
    index_new()
}

/// Sets the field `name` to `value`: the value is put under the next number,
/// and the name takes that number in the index.
pub(crate) fn keep_field(
    index: &mut NameIndex,
    values: &mut Vec<Option<Value>>,
    name: String,
    value: Value,
    Ghost(fields): Ghost<Seq<(Seq<char>, Tree)>>,
)
    requires
        tracks(entries_of(*old(index)), old(values)@, fields),
        sorted_keys(fields),
    ensures
        tracks(entries_of(*final(index)), final(values)@, put(fields, name@, value@)),
        sorted_keys(put(fields, name@, value@)),
{
    let number = values.len() as u64;
    proof {
        assert forall|i: int| 0 <= i < entries_of(*index).len() implies (#[trigger] entries_of(
            *index,
        )[i]).1 < values@.len() by {
            assert(kept_at(values@, fields, entries_of(*index)[i]));
        }
        lemma_track_step(entries_of(*index), values@, fields, name@, value);
    }
    values.push(Some(value));
    index_insert(index, name, number);
}

/// The fields in the order of their names: the index is sorted, and each of
/// its names takes the value that stands under its number.
pub(crate) fn into_fields(
    index: NameIndex,
    values: Vec<Option<Value>>,
    Ghost(fields): Ghost<Seq<(Seq<char>, Tree)>>,
) -> (out: Vec<(String, Value)>)
    requires
        tracks(entries_of(index), values@, fields),
        sorted_keys(fields),
    ensures
        fields_of(out@) == fields,
{
    let mut index = index;
    let mut values = values;
    let ghost before = entries_of(index);
    index_sort_keys(&mut index);
    let ghost sorted = entries_of(index);
    let entries = index_entries(index);
    proof {
        lemma_track_sorted(before, sorted, values@, fields);
        lemma_tracked_fields(sorted, values@, fields);
        assert(numbered(entries@).len() == entries@.len());
    }
    let ghost held = values@;
    let mut out: Vec<(String, Value)> = Vec::new();
    let mut k: usize = 0;
    while k < entries.len()
        invariant
            k <= entries.len(),
            entries@.len() == fields.len(),
            numbered(entries@) == sorted,
            out@.len() == k,
            forall|j: int| 0 <= j < k ==> (#[trigger] fields_of(out@)[j]) == fields[j],
            values@.len() == held.len(),
            forall|i: int, j: int|
                0 <= i < j < sorted.len() ==> (#[trigger] sorted[i]).1 != (#[trigger] sorted[j]).1,
            forall|j: int|
                0 <= j < sorted.len() ==> (#[trigger] sorted[j]).0 == fields[j].0 && sorted[j].1
                    < held.len(),
            forall|j: int|
                k <= j < sorted.len() ==> (values@[(#[trigger] sorted[j]).1 as int] matches Some(
                    value,
                ) && value@ == fields[j].1),
        decreases entries.len() - k,
    {
        let ghost entry = sorted[k as int];
        assert(numbered(entries@)[k as int] == (entries@[k as int].0@, entries@[k as int].1));
        assert(entry.1 == entries@[k as int].1 && entry.0 == entries@[k as int].0@);
        assert(entry.1 < held.len());
        assert(values@[entry.1 as int] matches Some(value) && value@ == fields[k as int].1);
        let len = values.len();
        assert(entries@[k as int].1 < len);
        let name = entries[k].0.clone();
        let at = entries[k].1 as usize;
        assert(at == entry.1);
        let ghost until = values@;
        values.push(None);
        let taken = values.swap_remove(at);
        proof {
            assert(values@ =~= until.update(at as int, None));
            assert forall|j: int| k < j < sorted.len() implies (values@[(
            #[trigger] sorted[j]).1 as int] matches Some(value) && value@ == fields[j].1) by {
                assert(sorted[k as int].1 != sorted[j].1);
                assert(sorted[j].1 < held.len());
                assert(until[sorted[j].1 as int] matches Some(value) && value@ == fields[j].1);
                assert(values@[sorted[j].1 as int] == until[sorted[j].1 as int]);
            }
            assert(taken == until[at as int]);
        }
        match taken {
            Some(value) => {
                let ghost so_far = out@;
                out.push((name, value));
                proof {
                    assert forall|j: int| 0 <= j <= k implies (#[trigger] fields_of(out@)[j])
                        == fields[j] by {
                        if j < k {
                            assert(fields_of(so_far)[j] == fields[j]);
                        }
                    }
                }
            },
            None => {
                assert(false);
            },
        }
        k += 1;
    }
    assert(fields_of(out@) =~= fields);
    out
}

} // verus!
