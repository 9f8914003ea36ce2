use hc_multitool::reader::{
    read4b, read_f32, read_len, read_string, read_u32_le, ErrorKind, Reader, Type,
};

fn text_bytes(text: &[u8], pad: u8) -> Vec<u8> {
    let mut bytes = (text.len() as u32).to_le_bytes().to_vec();
    bytes.extend_from_slice(text);
    while bytes.len() % 4 != 0 {
        bytes.push(pad);
    }
    bytes
}

#[test]
fn read4b_takes_four_bytes() {
    let mut reader = Reader::new(vec![1, 2, 3, 4, 5]);
    assert_eq!(read4b(&mut reader), Ok([1, 2, 3, 4]));
    assert_eq!(reader.position(), 4);
    assert_eq!(reader.remaining(), 1);
}

#[test]
fn read4b_on_three_bytes_is_truncated_and_stays() {
    let mut reader = Reader::new(vec![1, 2, 3]);
    assert_eq!(read4b(&mut reader), Err(ErrorKind::TruncatedInput));
    assert_eq!(reader.position(), 0);
}

#[test]
fn read4b_on_nothing_is_truncated() {
    let mut reader = Reader::new(vec![]);
    assert_eq!(read4b(&mut reader), Err(ErrorKind::TruncatedInput));
    assert_eq!(reader.position(), 0);
}

#[test]
fn every_marker_has_its_kind() {
    assert_eq!(Type::from_marker([0x01, 0, 0, 0]), Ok(Type::Bool));
    assert_eq!(Type::from_marker([0x02, 0, 0, 0]), Ok(Type::Int));
    assert_eq!(Type::from_marker([0x03, 0, 0, 0]), Ok(Type::Unknown3));
    assert_eq!(Type::from_marker([0x04, 0, 0, 0]), Ok(Type::String));
    assert_eq!(Type::from_marker([0x05, 0, 0, 0]), Ok(Type::Coordinates));
    assert_eq!(Type::from_marker([0x12, 0, 0, 0]), Ok(Type::Reference));
    assert_eq!(Type::from_marker([0x14, 0, 0, 0]), Ok(Type::Object));
    assert_eq!(Type::from_marker([0x15, 0, 0, 0]), Ok(Type::Array));
}

#[test]
fn every_other_first_byte_is_an_unknown_marker() {
    let known = [0x01u8, 0x02, 0x03, 0x04, 0x05, 0x12, 0x14, 0x15];
    for code in 0..=255u8 {
        if !known.contains(&code) {
            assert_eq!(
                Type::from_marker([code, 0, 0, 0]),
                Err(ErrorKind::UnknownMarker(code))
            );
        }
    }
}

#[test]
fn a_marker_with_a_reserved_byte_set_is_malformed() {
    assert_eq!(Type::from_marker([0x01, 1, 0, 0]), Err(ErrorKind::MalformedMarker));
    assert_eq!(Type::from_marker([0x01, 0, 1, 0]), Err(ErrorKind::MalformedMarker));
    assert_eq!(Type::from_marker([0x01, 0, 0, 1]), Err(ErrorKind::MalformedMarker));
    assert_eq!(Type::from_marker([0x99, 0, 0, 0x80]), Err(ErrorKind::MalformedMarker));
}

#[test]
fn marker_0x99_is_unknown_and_nothing_more_is_consumed() {
    let mut reader = Reader::new(vec![0x99, 0, 0, 0, 7, 7, 7, 7]);
    assert_eq!(Type::read_marker(&mut reader), Err(ErrorKind::UnknownMarker(0x99)));
    assert_eq!(reader.position(), 4);
    assert_eq!(reader.remaining(), 4);
}

#[test]
fn read_marker_on_a_short_input_is_truncated() {
    let mut reader = Reader::new(vec![0x01, 0]);
    assert_eq!(Type::read_marker(&mut reader), Err(ErrorKind::TruncatedInput));
    assert_eq!(reader.position(), 0);
}

#[test]
fn little_endian_numbers() {
    assert_eq!(read_u32_le([0, 0, 0, 0]), 0);
    assert_eq!(read_u32_le([1, 0, 0, 0]), 1);
    assert_eq!(read_u32_le([0, 1, 0, 0]), 256);
    assert_eq!(read_u32_le([0x78, 0x56, 0x34, 0x12]), 0x1234_5678);
    assert_eq!(read_u32_le([0xff, 0xff, 0xff, 0xff]), u32::MAX);
}

#[test]
fn little_endian_agrees_with_std() {
    for n in [0u32, 1, 255, 256, 65_535, 65_536, 16_777_215, 16_777_216, 0x8000_0000, u32::MAX] {
        assert_eq!(read_u32_le(n.to_le_bytes()), n);
    }
}

#[test]
fn length_of_an_object_needs_the_sentinel() {
    let mut reader = Reader::new(vec![0x02, 0x00, 0x00, 0x00]);
    assert_eq!(read_len(&mut reader, Type::Object), Err(ErrorKind::BadLengthSentinel));
    assert_eq!(reader.position(), 4);
}

#[test]
fn length_of_an_object_with_the_sentinel_is_two() {
    let mut reader = Reader::new(vec![0x02, 0x00, 0x00, 0x80]);
    assert_eq!(read_len(&mut reader, Type::Object), Ok(2));
    assert_eq!(reader.position(), 4);
}

#[test]
fn length_of_an_array_needs_the_sentinel() {
    let mut reader = Reader::new(vec![0x02, 0x00, 0x00, 0x7f]);
    assert_eq!(read_len(&mut reader, Type::Array), Err(ErrorKind::BadLengthSentinel));
    let mut reader = Reader::new(vec![0x01, 0x02, 0x03, 0x80]);
    assert_eq!(read_len(&mut reader, Type::Array), Ok(0x0003_0201));
}

#[test]
fn length_of_a_string_is_plain() {
    let mut reader = Reader::new(vec![0x02, 0x00, 0x00, 0x80]);
    assert_eq!(read_len(&mut reader, Type::String), Ok(0x8000_0002));
    let mut reader = Reader::new(vec![0x02, 0x00, 0x00, 0x00]);
    assert_eq!(read_len(&mut reader, Type::String), Ok(2));
}

#[test]
fn length_on_a_short_input_is_truncated() {
    let mut reader = Reader::new(vec![0x02, 0x00, 0x80]);
    assert_eq!(read_len(&mut reader, Type::Object), Err(ErrorKind::TruncatedInput));
    assert_eq!(reader.position(), 0);
}

#[test]
fn read_f32_gives_the_bits() {
    let mut reader = Reader::new(1.5f32.to_le_bytes().to_vec());
    let bits = read_f32(&mut reader).unwrap();
    assert_eq!(bits, 0x3fc0_0000);
    assert_eq!(f32::from_bits(bits), 1.5);
    assert_eq!(reader.position(), 4);
}

#[test]
fn read_f32_on_a_short_input_is_truncated() {
    let mut reader = Reader::new(vec![0, 0, 0xc0]);
    assert_eq!(read_f32(&mut reader), Err(ErrorKind::TruncatedInput));
}

#[test]
fn string_without_marker() {
    let mut reader = Reader::new(text_bytes(b"hello", 0));
    assert_eq!(read_string(&mut reader, false), Ok("hello".to_string()));
    assert_eq!(reader.position(), 12);
    assert_eq!(reader.remaining(), 0);
}

#[test]
fn string_with_marker() {
    let mut bytes = vec![0x04, 0, 0, 0];
    bytes.extend(text_bytes(b"name", 0));
    bytes.push(0xaa);
    let mut reader = Reader::new(bytes);
    assert_eq!(read_string(&mut reader, true), Ok("name".to_string()));
    assert_eq!(reader.position(), 12);
    assert_eq!(reader.remaining(), 1);
}

#[test]
fn string_with_another_marker_is_unexpected() {
    let mut bytes = vec![0x02, 0, 0, 0];
    bytes.extend(text_bytes(b"name", 0));
    let mut reader = Reader::new(bytes);
    assert_eq!(
        read_string(&mut reader, true),
        Err(ErrorKind::UnexpectedMarker(Type::String, Type::Int))
    );
    assert_eq!(reader.position(), 4);
}

#[test]
fn string_with_a_bad_marker_fails_as_the_marker_does() {
    let mut reader = Reader::new(vec![0x04, 0, 1, 0, 0, 0, 0, 0]);
    assert_eq!(read_string(&mut reader, true), Err(ErrorKind::MalformedMarker));
    let mut reader = Reader::new(vec![0x77, 0, 0, 0, 0, 0, 0, 0]);
    assert_eq!(read_string(&mut reader, true), Err(ErrorKind::UnknownMarker(0x77)));
}

#[test]
fn strings_of_every_length_up_to_300_round_trip() {
    for len in 0..=300usize {
        let text: String = (0..len).map(|i| (b'a' + (i % 26) as u8) as char).collect();
        let mut bytes = vec![0x04, 0, 0, 0];
        bytes.extend(text_bytes(text.as_bytes(), 0));
        let whole = bytes.len();
        assert_eq!(whole, 8 + len + (4 - len % 4) % 4);
        let mut reader = Reader::new(bytes);
        assert_eq!(read_string(&mut reader, true), Ok(text));
        assert_eq!(reader.position(), whole);
    }
}

#[test]
fn strings_of_many_bytes_per_character_round_trip() {
    for text in ["é", "日本語", "a€b", "🦀", "🦀🦀x", "ß日€🦀"] {
        let bytes = text_bytes(text.as_bytes(), 0);
        let whole = bytes.len();
        let mut reader = Reader::new(bytes);
        assert_eq!(read_string(&mut reader, false), Ok(text.to_string()));
        assert_eq!(reader.position(), whole);
    }
}

#[test]
fn padding_is_skipped_unread() {
    for len in 1..=3usize {
        let text = &b"xyz"[..len];
        let mut reader = Reader::new(text_bytes(text, 0xee));
        assert_eq!(
            read_string(&mut reader, false),
            Ok(String::from_utf8(text.to_vec()).unwrap())
        );
        assert_eq!(reader.position(), 8);
    }
}

#[test]
fn invalid_utf8_fails_and_consumes_no_further_bytes() {
    let mut bytes = text_bytes(&[0xff, 0xfe], 0);
    bytes.extend([9, 9, 9, 9]);
    let mut reader = Reader::new(bytes);
    assert_eq!(read_string(&mut reader, false), Err(ErrorKind::InvalidUtf8));
    assert_eq!(reader.position(), 6);
}

#[test]
fn overlong_and_surrogate_encodings_are_invalid_utf8() {
    for bad in [&[0xc0u8, 0x80][..], &[0xed, 0xa0, 0x80], &[0xf4, 0x90, 0x80, 0x80], &[0x80]] {
        let mut reader = Reader::new(text_bytes(bad, 0));
        assert_eq!(read_string(&mut reader, false), Err(ErrorKind::InvalidUtf8));
        assert_eq!(reader.position(), 4 + bad.len());
    }
}

#[test]
fn string_cut_in_its_bytes_is_truncated() {
    let mut bytes = text_bytes(b"hello", 0);
    bytes.truncate(7);
    let mut reader = Reader::new(bytes);
    assert_eq!(read_string(&mut reader, false), Err(ErrorKind::TruncatedInput));
    assert_eq!(reader.position(), 4);
}

#[test]
fn string_cut_in_its_padding_is_truncated() {
    let mut bytes = text_bytes(b"hello", 0);
    bytes.truncate(10);
    let mut reader = Reader::new(bytes);
    assert_eq!(read_string(&mut reader, false), Err(ErrorKind::TruncatedInput));
    assert_eq!(reader.position(), 9);
}

#[test]
fn string_of_a_huge_length_is_truncated() {
    let mut reader = Reader::new(vec![0xff, 0xff, 0xff, 0xff, b'a']);
    assert_eq!(read_string(&mut reader, false), Err(ErrorKind::TruncatedInput));
    assert_eq!(reader.position(), 4);
}
