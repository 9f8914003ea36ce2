use hc_multitool::decoder::{decode, is_null, read_value};
use hc_multitool::reader::{ErrorKind, Reader, Type};
use hc_multitool::value::{DecodeError, PathStep, Value, Warning};

fn marker(code: u8) -> Vec<u8> {
    vec![code, 0, 0, 0]
}

fn count(n: u32) -> Vec<u8> {
    let mut bytes = n.to_le_bytes();
    bytes[3] = 0x80;
    bytes.to_vec()
}

fn body(text: &str) -> Vec<u8> {
    let mut bytes = (text.len() as u32).to_le_bytes().to_vec();
    bytes.extend_from_slice(text.as_bytes());
    while bytes.len() % 4 != 0 {
        bytes.push(0);
    }
    bytes
}

fn string(text: &str) -> Vec<u8> {
    [marker(0x04), body(text)].concat()
}

fn boolean(b: bool) -> Vec<u8> {
    [marker(0x01), vec![b as u8, 0, 0, 0]].concat()
}

fn number(n: u32) -> Vec<u8> {
    [marker(0x02), n.to_le_bytes().to_vec()].concat()
}

fn unknown(raw: u32) -> Vec<u8> {
    [marker(0x03), raw.to_le_bytes().to_vec()].concat()
}

fn reference() -> Vec<u8> {
    marker(0x12)
}

fn coordinates(x: f32, y: f32) -> Vec<u8> {
    [marker(0x05), x.to_le_bytes().to_vec(), y.to_le_bytes().to_vec()].concat()
}

fn object(fields: &[(&str, Vec<u8>)]) -> Vec<u8> {
    let mut bytes = [marker(0x14), count(fields.len() as u32)].concat();
    for (name, value) in fields {
        bytes.extend(string(name));
        bytes.extend(value.iter());
    }
    bytes
}

fn array(items: &[Vec<u8>]) -> Vec<u8> {
    let mut bytes = [marker(0x15), count(items.len() as u32)].concat();
    for item in items {
        bytes.extend(item.iter());
    }
    bytes
}

fn text(s: &str) -> Value {
    Value::String(s.to_string())
}

fn fails(bytes: Vec<u8>) -> DecodeError {
    decode(bytes).0.unwrap_err()
}

#[test]
fn bool_zero_is_false_and_one_is_true() {
    assert_eq!(decode(boolean(false)), (Ok(Value::Bool(false)), vec![]));
    assert_eq!(decode(boolean(true)), (Ok(Value::Bool(true)), vec![]));
}

#[test]
fn bool_looks_at_the_first_byte_only() {
    let bytes = [marker(0x01), vec![1, 0xaa, 0xbb, 0xcc]].concat();
    assert_eq!(decode(bytes), (Ok(Value::Bool(true)), vec![]));
}

#[test]
fn every_other_bool_byte_is_invalid() {
    for byte in 2..=255u8 {
        let error = fails([marker(0x01), vec![byte, 0, 0, 0]].concat());
        assert_eq!(error.kind, ErrorKind::InvalidBoolValue(byte));
        assert!(error.path.is_empty());
    }
}

#[test]
fn a_bad_bool_leaves_the_cursor_behind_its_payload() {
    let mut reader = Reader::new([marker(0x01), vec![2, 0, 0, 0], vec![5, 5]].concat());
    let mut warnings = Vec::new();
    assert!(read_value(&mut reader, &mut warnings).is_err());
    assert_eq!(reader.position(), 8);
}

#[test]
fn ints_round_trip() {
    for n in [0u32, 1, 255, 256, 0x1234_5678, 0x7fff_ffff, 0x8000_0000, u32::MAX] {
        assert_eq!(decode(number(n)), (Ok(Value::Int(n)), vec![]));
    }
}

#[test]
fn int_is_unsigned() {
    let bytes = [marker(0x02), vec![0xff, 0xff, 0xff, 0xff]].concat();
    assert_eq!(decode(bytes).0, Ok(Value::Int(4_294_967_295)));
}

#[test]
fn what_follows_a_value_is_not_looked_at() {
    let mut reader = Reader::new([number(7), vec![0x99, 0x99]].concat());
    let mut warnings = Vec::new();
    assert_eq!(read_value(&mut reader, &mut warnings), Ok(Value::Int(7)));
    assert_eq!(reader.position(), 8);
    assert_eq!(reader.remaining(), 2);
}

#[test]
fn strings_round_trip() {
    for s in ["", "a", "ab", "abc", "abcd", "abcde", "héllo", "日本語", "🦀"] {
        assert_eq!(decode(string(s)), (Ok(text(s)), vec![]));
    }
}

#[test]
fn strings_of_every_length_up_to_300_decode() {
    for len in 0..=300usize {
        let s = "x".repeat(len);
        let bytes = string(&s);
        assert_eq!(bytes.len() % 4, 0);
        assert_eq!(decode(bytes), (Ok(text(&s)), vec![]));
    }
}

#[test]
fn a_string_of_invalid_utf8_fails() {
    let bytes = [marker(0x04), vec![2, 0, 0, 0], vec![0xc3, 0x28, 0, 0]].concat();
    let mut reader = Reader::new(bytes);
    let mut warnings = Vec::new();
    let error = read_value(&mut reader, &mut warnings).unwrap_err();
    assert_eq!(error.kind, ErrorKind::InvalidUtf8);
    assert_eq!(reader.position(), 10);
}

#[test]
fn unknown_is_null_with_a_warning() {
    assert_eq!(
        decode(unknown(0xdead_beef)),
        (Ok(Value::Null), vec![Warning::Unknown3 { raw: 0xdead_beef }])
    );
}

#[test]
fn reference_is_null_with_a_warning() {
    let mut reader = Reader::new([reference(), vec![1, 2, 3, 4]].concat());
    let mut warnings = Vec::new();
    assert_eq!(read_value(&mut reader, &mut warnings), Ok(Value::Null));
    assert_eq!(warnings, vec![Warning::Reference]);
    assert_eq!(reader.position(), 4);
}

#[test]
fn warnings_are_added_to_those_made_before() {
    let mut reader = Reader::new(reference());
    let mut warnings = vec![Warning::NullElement { index: 9 }];
    assert_eq!(read_value(&mut reader, &mut warnings), Ok(Value::Null));
    assert_eq!(warnings, vec![Warning::NullElement { index: 9 }, Warning::Reference]);
}

#[test]
fn coordinates_become_an_object_of_x_and_y() {
    let (value, warnings) = decode(coordinates(1.5, -2.25));
    assert!(warnings.is_empty());
    let fields = match value.unwrap() {
        Value::Object(fields) => fields,
        other => panic!("not an object: {other:?}"),
    };
    assert_eq!(fields.len(), 2);
    assert_eq!(fields[0], ("x".to_string(), Value::Single(1.5f32.to_bits())));
    assert_eq!(fields[1], ("y".to_string(), Value::Single((-2.25f32).to_bits())));
    match (&fields[0].1, &fields[1].1) {
        (Value::Single(x), Value::Single(y)) => {
            assert_eq!(f32::from_bits(*x), 1.5);
            assert_eq!(f32::from_bits(*y), -2.25);
        }
        _ => unreachable!(),
    }
}

#[test]
fn coordinates_cut_in_the_second_number_are_truncated() {
    let mut bytes = coordinates(1.0, 2.0);
    bytes.truncate(10);
    let mut reader = Reader::new(bytes);
    let mut warnings = Vec::new();
    let error = read_value(&mut reader, &mut warnings).unwrap_err();
    assert_eq!(error.kind, ErrorKind::TruncatedInput);
    assert_eq!(reader.position(), 8);
}

#[test]
fn an_empty_object_and_an_empty_array() {
    assert_eq!(decode(object(&[])), (Ok(Value::Object(vec![])), vec![]));
    assert_eq!(decode(array(&[])), (Ok(Value::Array(vec![])), vec![]));
}

#[test]
fn an_object_holds_its_fields_in_the_order_of_their_names() {
    let bytes = object(&[("b", number(1)), ("a", boolean(true)), ("c", string("s"))]);
    let expected = Value::Object(vec![
        ("a".to_string(), Value::Bool(true)),
        ("b".to_string(), Value::Int(1)),
        ("c".to_string(), text("s")),
    ]);
    assert_eq!(decode(bytes), (Ok(expected), vec![]));
}

#[test]
fn names_are_ordered_by_their_bytes() {
    let names = ["b", "B", "é", "a", "ab", "", "z", "aa", "日本"];
    let fields: Vec<(&str, Vec<u8>)> =
        names.iter().enumerate().map(|(i, name)| (*name, number(i as u32))).collect();
    let decoded = match decode(object(&fields)).0 {
        Ok(Value::Object(fields)) => fields,
        other => panic!("not an object: {other:?}"),
    };
    let mut sorted: Vec<(String, Value)> = names
        .iter()
        .enumerate()
        .map(|(i, name)| (name.to_string(), Value::Int(i as u32)))
        .collect();
    sorted.sort_by(|a, b| a.0.cmp(&b.0));
    assert_eq!(decoded, sorted);
    let keys: Vec<&str> = decoded.iter().map(|field| field.0.as_str()).collect();
    assert_eq!(keys, ["", "B", "a", "aa", "ab", "b", "z", "é", "日本"]);
}

#[test]
fn a_later_field_of_the_same_name_overwrites() {
    let bytes = object(&[("a", number(1)), ("b", number(2)), ("a", number(3))]);
    let expected = Value::Object(vec![
        ("a".to_string(), Value::Int(3)),
        ("b".to_string(), Value::Int(2)),
    ]);
    assert_eq!(decode(bytes), (Ok(expected), vec![]));
}

#[test]
fn a_later_null_field_does_not_overwrite() {
    let bytes = object(&[("a", number(1)), ("a", reference())]);
    let expected = Value::Object(vec![("a".to_string(), Value::Int(1))]);
    let warnings = vec![
        Warning::Reference,
        Warning::NullField { name: "a".to_string(), index: 1 },
    ];
    assert_eq!(decode(bytes), (Ok(expected), warnings));
}

#[test]
fn a_reference_field_is_dropped_with_a_warning() {
    let bytes = object(&[("first", number(1)), ("second", reference()), ("third", number(3))]);
    let (value, warnings) = decode(bytes);
    let expected = Value::Object(vec![
        ("first".to_string(), Value::Int(1)),
        ("third".to_string(), Value::Int(3)),
    ]);
    assert_eq!(value, Ok(expected));
    assert_eq!(
        warnings,
        vec![
            Warning::Reference,
            Warning::NullField { name: "second".to_string(), index: 1 },
        ]
    );
}

#[test]
fn unknown_elements_are_dropped_and_the_others_keep_their_order() {
    let bytes = array(&[number(10), unknown(1), number(20), unknown(2)]);
    let (value, warnings) = decode(bytes);
    assert_eq!(value, Ok(Value::Array(vec![Value::Int(10), Value::Int(20)])));
    assert_eq!(
        warnings,
        vec![
            Warning::Unknown3 { raw: 1 },
            Warning::NullElement { index: 1 },
            Warning::Unknown3 { raw: 2 },
            Warning::NullElement { index: 3 },
        ]
    );
}

#[test]
fn an_array_of_nothing_but_references_is_empty() {
    let bytes = array(&[reference(), reference()]);
    let (value, warnings) = decode(bytes);
    assert_eq!(value, Ok(Value::Array(vec![])));
    assert_eq!(warnings.len(), 4);
}

#[test]
fn values_nest() {
    let inner = object(&[("pos", coordinates(0.5, 0.25)), ("tags", array(&[string("a")]))]);
    let bytes = object(&[("items", array(&[inner, number(2)])), ("ok", boolean(false))]);
    let expected = Value::Object(vec![
        (
            "items".to_string(),
            Value::Array(vec![
                Value::Object(vec![
                    (
                        "pos".to_string(),
                        Value::Object(vec![
                            ("x".to_string(), Value::Single(0.5f32.to_bits())),
                            ("y".to_string(), Value::Single(0.25f32.to_bits())),
                        ]),
                    ),
                    ("tags".to_string(), Value::Array(vec![text("a")])),
                ]),
                Value::Int(2),
            ]),
        ),
        ("ok".to_string(), Value::Bool(false)),
    ]);
    assert_eq!(decode(bytes), (Ok(expected), vec![]));
}

#[test]
fn an_object_without_the_sentinel_fails() {
    let bytes = [marker(0x14), vec![2, 0, 0, 0]].concat();
    let error = fails(bytes);
    assert_eq!(error.kind, ErrorKind::BadLengthSentinel);
    assert!(error.path.is_empty());
}

#[test]
fn an_array_without_the_sentinel_fails() {
    let bytes = [marker(0x15), vec![0, 0, 0, 0x81]].concat();
    assert_eq!(fails(bytes).kind, ErrorKind::BadLengthSentinel);
}

#[test]
fn an_unknown_marker_fails_without_consuming_more() {
    let mut reader = Reader::new(vec![0x99, 0, 0, 0, 1, 2, 3, 4]);
    let mut warnings = Vec::new();
    let error = read_value(&mut reader, &mut warnings).unwrap_err();
    assert_eq!(error, DecodeError { kind: ErrorKind::UnknownMarker(0x99), path: vec![] });
    assert_eq!(reader.position(), 4);
}

#[test]
fn a_malformed_marker_fails() {
    let error = fails(vec![0x02, 0, 0, 1, 0, 0, 0, 0]);
    assert_eq!(error.kind, ErrorKind::MalformedMarker);
}

#[test]
fn a_field_name_must_be_a_string() {
    let mut bytes = [marker(0x14), count(1)].concat();
    bytes.extend(number(5));
    bytes.extend(number(6));
    let error = fails(bytes);
    assert_eq!(error.kind, ErrorKind::UnexpectedMarker(Type::String, Type::Int));
    assert_eq!(error.path, vec![PathStep::FieldName { index: 0 }]);
}

#[test]
fn errors_name_the_way_down() {
    let bad = [marker(0x01), vec![7, 0, 0, 0]].concat();
    let bytes = object(&[
        ("fine", number(1)),
        ("list", array(&[boolean(true), object(&[("deep", bad)])])),
    ]);
    let error = fails(bytes);
    assert_eq!(error.kind, ErrorKind::InvalidBoolValue(7));
    assert_eq!(
        error.path,
        vec![
            PathStep::FieldValue { name: "list".to_string(), index: 1 },
            PathStep::Element { index: 1 },
            PathStep::FieldValue { name: "deep".to_string(), index: 0 },
        ]
    );
}

#[test]
fn warnings_made_before_a_failure_are_kept() {
    let bytes = array(&[reference(), marker(0x99)]);
    let (value, warnings) = decode(bytes);
    let error = value.unwrap_err();
    assert_eq!(error.kind, ErrorKind::UnknownMarker(0x99));
    assert_eq!(error.path, vec![PathStep::Element { index: 1 }]);
    assert_eq!(warnings, vec![Warning::Reference, Warning::NullElement { index: 0 }]);
}

#[test]
fn an_object_that_promises_more_than_it_holds_is_truncated() {
    let mut bytes = [marker(0x14), count(2)].concat();
    bytes.extend(string("a"));
    bytes.extend(number(1));
    let error = fails(bytes);
    assert_eq!(error.kind, ErrorKind::TruncatedInput);
    assert_eq!(error.path, vec![PathStep::FieldName { index: 1 }]);
}

#[test]
fn every_cut_of_a_save_fails_as_truncated() {
    let bytes = object(&[
        ("name", string("hello")),
        ("pos", coordinates(1.0, 2.0)),
        ("list", array(&[number(1), boolean(true), reference(), string("ab")])),
        ("n", unknown(3)),
    ]);
    assert!(decode(bytes.clone()).0.is_ok());
    for cut in 0..bytes.len() {
        let error = fails(bytes[..cut].to_vec());
        assert_eq!(error.kind, ErrorKind::TruncatedInput, "cut at {cut}");
    }
}

#[test]
fn a_save_cut_behind_its_value_decodes_as_before() {
    let bytes = object(&[("a", array(&[number(1), reference()]))]);
    let longer = [bytes.clone(), vec![1, 2, 3]].concat();
    assert_eq!(decode(bytes), decode(longer));
}

#[test]
fn an_empty_input_is_truncated() {
    assert_eq!(fails(vec![]), DecodeError { kind: ErrorKind::TruncatedInput, path: vec![] });
}

#[test]
fn is_null_tells_null_from_the_rest() {
    assert!(is_null(&Value::Null));
    assert!(!is_null(&Value::Bool(false)));
    assert!(!is_null(&Value::Int(0)));
    assert!(!is_null(&Value::Array(vec![])));
    assert!(!is_null(&Value::Object(vec![])));
    assert!(!is_null(&text("")));
}

#[test]
fn the_way_down_grows_at_its_front() {
    let error = DecodeError::here(ErrorKind::InvalidUtf8)
        .under(PathStep::Element { index: 2 })
        .under(PathStep::FieldValue { name: "f".to_string(), index: 0 });
    assert_eq!(error.kind, ErrorKind::InvalidUtf8);
    assert_eq!(
        error.path,
        vec![
            PathStep::FieldValue { name: "f".to_string(), index: 0 },
            PathStep::Element { index: 2 },
        ]
    );
}

#[test]
fn a_field_that_is_overwritten_keeps_one_value() {
    let bytes = object(&[
        ("b", number(1)),
        ("a", number(2)),
        ("b", string("later")),
        ("c", number(3)),
        ("a", boolean(true)),
        ("b", number(4)),
    ]);
    let expected = Value::Object(vec![
        ("a".to_string(), Value::Bool(true)),
        ("b".to_string(), Value::Int(4)),
        ("c".to_string(), Value::Int(3)),
    ]);
    assert_eq!(decode(bytes), (Ok(expected), vec![]));
}

#[test]
fn objects_in_objects_are_each_in_the_order_of_their_names() {
    let inner = object(&[("z", number(1)), ("y", number(2)), ("x", number(3))]);
    let bytes = object(&[("q", inner), ("p", array(&[object(&[("n", number(0)), ("m", number(9))])]))]);
    let expected = Value::Object(vec![
        (
            "p".to_string(),
            Value::Array(vec![Value::Object(vec![
                ("m".to_string(), Value::Int(9)),
                ("n".to_string(), Value::Int(0)),
            ])]),
        ),
        (
            "q".to_string(),
            Value::Object(vec![
                ("x".to_string(), Value::Int(3)),
                ("y".to_string(), Value::Int(2)),
                ("z".to_string(), Value::Int(1)),
            ]),
        ),
    ]);
    assert_eq!(decode(bytes), (Ok(expected), vec![]));
}

#[test]
fn an_object_of_many_fields_is_in_order() {
    let names: Vec<String> = (0..200u32).map(|i| format!("k{}", (i * 37) % 200)).collect();
    let fields: Vec<(&str, Vec<u8>)> =
        names.iter().enumerate().map(|(i, name)| (name.as_str(), number(i as u32))).collect();
    let decoded = match decode(object(&fields)).0 {
        Ok(Value::Object(fields)) => fields,
        other => panic!("not an object: {other:?}"),
    };
    assert_eq!(decoded.len(), 200);
    for pair in decoded.windows(2) {
        assert!(pair[0].0 < pair[1].0);
    }
    for (i, name) in names.iter().enumerate() {
        let found = decoded.iter().find(|field| &field.0 == name).unwrap();
        assert_eq!(found.1, Value::Int(i as u32));
    }
}
