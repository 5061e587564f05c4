use string_container::wire::DecodeError;
use string_container::SmallArrayBox;
use string_container::Strings;
use string_container::StringsNoIndex;
use string_container::TwoStrs;

type ByteArrayBox = SmallArrayBox<u8, 8>;

fn assert_same_strings(a: &Strings, b: &Strings) {
    assert_eq!(a.len(), b.len());
    let mut ia = a.iter();
    let mut ib = b.iter();
    loop {
        match (ia.next(), ib.next()) {
            (None, None) => break,
            (x, y) => assert_eq!(x, y),
        }
    }
}

fn assert_same_strings_no_index(a: &StringsNoIndex, b: &StringsNoIndex) {
    assert_eq!(a.len(), b.len());
    let mut ia = a.iter();
    let mut ib = b.iter();
    loop {
        match (ia.next(), ib.next()) {
            (None, None) => break,
            (x, y) => assert_eq!(x, y),
        }
    }
}

fn get_strings() -> Strings {
    let mut strings = Strings::new();
    for i in 0..1024 {
        strings.push(&i.to_string());
    }
    strings
}

fn get_strings_no_index() -> StringsNoIndex {
    let mut strings = StringsNoIndex::new();
    for i in 0..1024 {
        strings.push(&i.to_string());
    }
    strings
}

#[test]
fn test_ser_de_empty_serde_strings() {
    let strings = Strings::new();
    let bytes = strings.encode();
    assert_eq!(bytes, vec![0, 0, 0, 0]);
    let decoded = Strings::decode(&bytes).unwrap();
    assert_same_strings(&strings, &decoded);
}

#[test]
fn test_ser_de_empty_serde_strings_no_index() {
    let strings = StringsNoIndex::new();
    let bytes = strings.encode();
    assert_eq!(bytes, vec![0, 0, 0, 0]);
    let decoded = StringsNoIndex::decode(&bytes).unwrap();
    assert_same_strings_no_index(&strings, &decoded);
}

#[test]
fn test_ser_de_serde_strings() {
    let strings = get_strings();
    let bytes = strings.encode();
    let decoded = Strings::decode(&bytes).unwrap();
    assert_same_strings(&strings, &decoded);
    assert_eq!(decoded.as_str(), strings.as_str());
}

#[test]
fn test_ser_de_serde_strings_no_index() {
    let strings = get_strings_no_index();
    let bytes = strings.encode();
    let decoded = StringsNoIndex::decode(&bytes).unwrap();
    assert_same_strings_no_index(&strings, &decoded);
}

#[test]
fn test_ser_de_serde_json_strings() {
    let strings = get_strings();
    let decoded = Strings::decode(&strings.encode()).unwrap();
    assert_same_strings(&decoded, &strings);
}

#[test]
fn test_ser_de_serde_json_strings_no_index() {
    let strings = get_strings_no_index();
    let decoded = StringsNoIndex::decode(&strings.encode()).unwrap();
    assert_same_strings_no_index(&decoded, &strings);
}

#[test]
fn test_ser_de_two_strs() {
    let s1 = "1234<<";
    let s2 = "234a";

    let two_strs = TwoStrs::new(s1, s2);
    let decoded = TwoStrs::decode(&two_strs.encode()).unwrap();
    assert_eq!(decoded.get(), (s1, s2));
}

#[test]
fn test_ser_de_serde_json_two_strs() {
    let s1 = "1234<<";
    let s2 = "234a";

    let two_strs = TwoStrs::new(s1, s2);
    let decoded = TwoStrs::decode(&two_strs.encode()).unwrap();
    assert_eq!(decoded.get(), two_strs.get());
}

#[test]
fn test_ser_de_small_array_box_empty() {
    let array = ByteArrayBox::new(Vec::new());
    let bytes = array.encode();
    assert_eq!(bytes, vec![0, 0, 0, 0]);
    let decoded = ByteArrayBox::decode(&bytes).unwrap();
    assert_eq!(decoded.as_slice(), array.as_slice());

    let array = ByteArrayBox::new_empty();
    let decoded = ByteArrayBox::decode(&array.encode()).unwrap();
    assert_eq!(decoded.as_slice(), array.as_slice());
}

#[test]
fn test_ser_de_small_array_box() {
    let vec: Vec<u8> = (0..100).collect();

    for len in 0..vec.len() {
        let slice = &vec[..len];

        let array = ByteArrayBox::new(slice.to_vec());
        let decoded = ByteArrayBox::decode(&array.encode()).unwrap();

        assert_eq!(decoded.as_slice(), slice);
        assert_eq!(decoded.is_inline(), len <= 8);
    }
}

#[test]
fn test_small_array_box_de_error() {
    for len in 0..8u8 {
        // Declare one element more than the input holds.
        let mut bytes = vec![len + 1, 0, 0, 0];
        for i in 0..len {
            bytes.push(i);
        }

        assert!(ByteArrayBox::decode(&bytes).is_err());
        assert_eq!(
            ByteArrayBox::decode(&bytes).err(),
            Some(DecodeError::MissingElement { index: len as u32 })
        );
    }
}

#[test]
fn wire_exact_bytes_strings() {
    let mut strings = Strings::new();
    strings.push("ab");
    assert_eq!(strings.encode(), vec![1, 0, 0, 0, 2, 0, 0, 0, b'a', b'b']);
}

#[test]
fn wire_exact_bytes_two_strs() {
    let two_strs = TwoStrs::new("a", "bc");
    assert_eq!(
        two_strs.encode(),
        vec![1, 0, 0, 0, b'a', 2, 0, 0, 0, b'b', b'c']
    );
}

#[test]
fn wire_truncated_count() {
    assert_eq!(Strings::decode(&[1, 0]).err(), Some(DecodeError::Truncated));
    assert_eq!(StringsNoIndex::decode(&[]).err(), Some(DecodeError::Truncated));
    assert_eq!(ByteArrayBox::decode(&[9]).err(), Some(DecodeError::Truncated));
}

#[test]
fn wire_missing_element() {
    // One string declared, nothing after the count.
    assert_eq!(
        Strings::decode(&[1, 0, 0, 0]).err(),
        Some(DecodeError::MissingElement { index: 0 })
    );
    // Two strings declared, the second one's bytes cut short.
    assert_eq!(
        Strings::decode(&[2, 0, 0, 0, 0, 0, 0, 0, 5, 0, 0, 0, b'x']).err(),
        Some(DecodeError::MissingElement { index: 1 })
    );
    // The second string of a pair is absent.
    assert_eq!(
        TwoStrs::decode(&[1, 0, 0, 0, b'a']).err(),
        Some(DecodeError::MissingElement { index: 1 })
    );
}

#[test]
fn wire_invalid_utf8() {
    assert_eq!(
        Strings::decode(&[1, 0, 0, 0, 1, 0, 0, 0, 0xFF]).err(),
        Some(DecodeError::InvalidUtf8 { index: 0 })
    );
}

#[test]
fn wire_embedded_nul() {
    // A one-byte string holding the null character cannot enter the
    // delimiter-indexed container.
    assert_eq!(
        StringsNoIndex::decode(&[1, 0, 0, 0, 1, 0, 0, 0, 0]).err(),
        Some(DecodeError::EmbeddedNul { index: 0 })
    );
    assert_eq!(
        TwoStrs::decode(&[1, 0, 0, 0, 0, 0, 0, 0, 0]).err(),
        Some(DecodeError::EmbeddedNul { index: 0 })
    );
    // The same bytes decode fine into the offset-indexed container.
    assert!(Strings::decode(&[1, 0, 0, 0, 1, 0, 0, 0, 0]).is_ok());
}

#[test]
fn wire_trailing_bytes() {
    assert_eq!(
        Strings::decode(&[0, 0, 0, 0, 7]).err(),
        Some(DecodeError::TrailingBytes)
    );
    assert_eq!(
        ByteArrayBox::decode(&[1, 0, 0, 0, 7, 8]).err(),
        Some(DecodeError::TrailingBytes)
    );
    assert_eq!(
        TwoStrs::decode(&[0, 0, 0, 0, 0, 0, 0, 0, 1]).err(),
        Some(DecodeError::TrailingBytes)
    );
}

#[test]
fn wire_round_trip_with_nulls_filtered() {
    // TwoStrs filters nulls at construction, so its wire form round-trips
    // the filtered pair.
    let two_strs = TwoStrs::new("a\0b", "\0");
    let decoded = TwoStrs::decode(&two_strs.encode()).unwrap();
    assert_eq!(decoded.get(), ("ab", ""));
}
