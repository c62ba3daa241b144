use std::str;

use bencode::{BString, DecodeError, Decoder, ErrorKind, Item, Settings};

fn process_string(expected: &str) {
    let input = format!("{}:{}", expected.len(), &expected);

    let v = Decoder::new(input.as_bytes()).decode().unwrap();
    let actual = v.into_iter().next().unwrap().string().unwrap();

    assert_eq!(expected, str::from_utf8(&actual.0).unwrap());
}

fn process_list(input: &str, expected: Vec<Item>) {
    let v = Decoder::new(input.as_bytes()).decode().unwrap();
    let actual = v.into_iter().next().unwrap().list().unwrap();

    assert_eq!(
        expected.len(),
        actual.0.len(),
        "expected length = {}, actual length = {}",
        expected.len(),
        actual.0.len()
    );

    expected
        .into_iter()
        .zip(actual.0.into_iter())
        .for_each(|(expected, actual)| assert_eq!(expected, actual))
}

fn process_dictionary(input: &str, expected_pairs: Vec<(BString, Item)>) {
    let v = Decoder::new(input.as_bytes()).decode().unwrap();
    let actual = v.into_iter().next().unwrap().dictionary().unwrap();

    let actual_pairs: Vec<_> = actual.0.into_iter().collect();
    assert_eq!(
        expected_pairs.len(),
        actual_pairs.len(),
        "expected length = {}, actual length = {}",
        expected_pairs.len(),
        actual_pairs.len()
    );

    expected_pairs
        .into_iter()
        .zip(actual_pairs.into_iter())
        .for_each(|((k1, v1), (k2, v2))| {
            assert_eq!(k1, k2);
            assert_eq!(v1, v2);
        })
}

#[test]
fn short_string() {
    process_string("test")
}

#[test]
fn long_string() {
    process_string("sixteencharslong")
}

#[test]
fn decode_empty_string() {
    process_string("")
}

#[test]
fn string_with_incorrect_length() {
    let input = b"7:foo";

    assert_eq!(
        Decoder::new(&input[..]).decode(),
        Err(DecodeError {
            kind: ErrorKind::UnexpectedEndOfBuffer
        })
    );
}

#[test]
fn two_strings_in_a_row() {
    let input = b"3:foo4:barr";

    assert!(Decoder::new(&input[..]).decode().is_ok());
}

#[test]
fn negative_zero() {
    let input = b"i-0e";

    assert_eq!(
        Decoder::new(&input[..]).decode(),
        Err(DecodeError {
            kind: ErrorKind::NegativeZero
        })
    );
}

#[test]
fn decode_integer() {
    let expected = 1234567890_i64;

    let input = format!("i{}e", expected);

    let v = Decoder::new(input.as_bytes()).decode().unwrap();
    let actual = v.into_iter().next().unwrap().integer().unwrap();

    assert_eq!(expected, actual.0);
}

#[test]
fn minus() {
    let input = b"i-e";

    assert_eq!(
        Decoder::new(&input[..]).decode(),
        Err(DecodeError {
            kind: ErrorKind::InvalidData
        })
    );
}

#[test]
fn empty_integer() {
    let input = b"ie";

    assert_eq!(
        Decoder::new(&input[..]).decode(),
        Err(DecodeError {
            kind: ErrorKind::InvalidData
        })
    );
}

#[test]
fn integer_with_leading_zeros() {
    let input = b"i001e";

    assert_eq!(
        Decoder::new(&input[..]).decode(),
        Err(DecodeError {
            kind: ErrorKind::LeadingZeros
        })
    );
}

#[test]
fn leading_zero_variants() {
    for input in ["i007e", "i-03e"] {
        assert_eq!(
            Decoder::new(input.as_bytes()).decode(),
            Err(DecodeError {
                kind: ErrorKind::LeadingZeros
            })
        );
    }
}

#[test]
fn malformed_integer() {
    let input = b"i-4AF54e";

    assert_eq!(
        Decoder::new(&input[..]).decode(),
        Err(DecodeError {
            kind: ErrorKind::InvalidData
        })
    );
}

#[test]
fn decode_empty_list() {
    process_list("le", vec![])
}

#[test]
fn decode_nested_list() {
    process_list("llleee", vec![vec![vec![].into()].into()])
}

#[test]
fn decode_simple_list() {
    process_list("li17e3:foo3:bare", vec![17.into(), "foo".into(), "bar".into()])
}

#[test]
fn malformed_lists() {
    let input = vec!["l4e", "l0:", "l3:gge", "li00002ee"];

    input
        .iter()
        .for_each(|s| assert!(Decoder::new(s.as_bytes()).decode().is_err()))
}

#[test]
fn decode_empty_dictionary() {
    process_dictionary("de", vec![])
}

#[test]
fn decode_simple_dictionary() {
    let items = vec![("bar".into(), "spam".into()), ("foo".into(), 42.into())];

    process_dictionary("d3:bar4:spam3:fooi42ee", items)
}

#[test]
fn unsorted_dictionary() {
    assert!(Decoder::new("d2:ccle2:bblee".as_bytes())
        .setting(Settings::UnsortedDictionaries)
        .decode()
        .is_ok());
}

#[test]
fn unsorted_dictionary_without_settings() {
    let res = Decoder::new("d2:ccle2:bblee".as_bytes()).decode();
    assert_eq!(
        res,
        Err(DecodeError {
            kind: ErrorKind::UnsortedDictionary
        })
    );
}

#[test]
fn empty_buffer_decodes_to_nothing() {
    let v = Decoder::new(&[]).decode().unwrap();
    assert!(v.is_empty());
}

#[test]
fn canonical_zero() {
    let v = Decoder::new(b"i0e").decode().unwrap();
    assert_eq!(v, vec![Item::Integer(bencode::BInteger(0))]);
}

#[test]
fn spam_string() {
    let v = Decoder::new(b"4:spam").decode().unwrap();
    assert_eq!(v, vec!["spam".into()]);
}

#[test]
fn list_of_integer_and_string() {
    process_list("li17e3:fooe", vec![17.into(), "foo".into()]);
}

#[test]
fn two_strings_values() {
    let v = Decoder::new(b"3:foo4:barr").decode().unwrap();
    assert_eq!(v, vec!["foo".into(), "barr".into()]);
}

#[test]
fn unexpected_byte_at_top_level() {
    let res = Decoder::new(b"x").decode();
    assert_eq!(
        res,
        Err(DecodeError {
            kind: ErrorKind::UnexpectedByte(b'x')
        })
    );
}

#[test]
fn integer_key_is_rejected() {
    let res = Decoder::new(b"di42e4:spame").decode();
    assert_eq!(
        res,
        Err(DecodeError {
            kind: ErrorKind::InvalidDictionaryKey
        })
    );
}

#[test]
fn list_key_is_rejected() {
    let res = Decoder::new(b"dle4:spame").decode();
    assert_eq!(
        res,
        Err(DecodeError {
            kind: ErrorKind::InvalidDictionaryKey
        })
    );
}

#[test]
fn unsorted_input_iterates_sorted() {
    let v = Decoder::new("d2:ccle2:bblee".as_bytes())
        .setting(Settings::UnsortedDictionaries)
        .decode()
        .unwrap();
    let d = v.into_iter().next().unwrap().dictionary().unwrap();
    let keys: Vec<&[u8]> = d.0.iter().map(|(k, _)| k.0.as_slice()).collect();
    assert_eq!(keys, vec![&b"bb"[..], &b"cc"[..]]);
}

#[test]
fn duplicate_keys_keep_the_last_value() {
    let v = Decoder::new(b"d1:a1:b1:a1:ce").decode().unwrap();
    let d = v.into_iter().next().unwrap().dictionary().unwrap();
    assert_eq!(d.0.len(), 1);
    assert_eq!(d.0[0].0, "a".into());
    assert_eq!(d.0[0].1, "c".into());
}

#[test]
fn extreme_integers() {
    let v = Decoder::new(b"i-9223372036854775808e").decode().unwrap();
    assert_eq!(v, vec![(-9223372036854775808i64).into()]);

    let v = Decoder::new(b"i9223372036854775807e").decode().unwrap();
    assert_eq!(v, vec![9223372036854775807i64.into()]);
}

#[test]
fn integer_overflow_is_invalid_data() {
    let res = Decoder::new(b"i9223372036854775808e").decode();
    assert_eq!(
        res,
        Err(DecodeError {
            kind: ErrorKind::InvalidData
        })
    );

    let res = Decoder::new(b"i-9223372036854775809e").decode();
    assert_eq!(
        res,
        Err(DecodeError {
            kind: ErrorKind::InvalidData
        })
    );
}

#[test]
fn plus_sign_is_tolerated() {
    let v = Decoder::new(b"i+5e").decode().unwrap();
    assert_eq!(v, vec![5.into()]);
}

#[test]
fn unterminated_list_at_end() {
    let res = Decoder::new(b"l").decode();
    assert_eq!(
        res,
        Err(DecodeError {
            kind: ErrorKind::UnexpectedEndOfBuffer
        })
    );
}

#[test]
fn dictionary_missing_value() {
    let res = Decoder::new(b"d3:foo").decode();
    assert_eq!(
        res,
        Err(DecodeError {
            kind: ErrorKind::UnexpectedEndOfBuffer
        })
    );
}
