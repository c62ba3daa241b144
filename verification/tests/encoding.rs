use std::str;

use bencode::{BDictionary, BInteger, BList, BString, Bencode, Decoder, Item};

#[test]
fn items_empty_string() {
    let expected = "0:".as_bytes().to_vec();

    assert_eq!(expected, BString::from("").encode())
}

#[test]
fn string() {
    let expected = "16:sixteencharslong".as_bytes().to_vec();

    assert_eq!(expected, BString::from("sixteencharslong").encode())
}

#[test]
fn items_integer() {
    let i = 1234567890;

    let expected = format!("i{}e", i).as_bytes().to_vec();

    let actual = BInteger(i).encode();

    assert_eq!(expected, actual)
}

#[test]
fn items_empty_list() {
    let expected = "le";

    let actual = BList(vec![]).encode();

    assert_eq!(expected, str::from_utf8(&actual).unwrap())
}

#[test]
fn items_simple_list() {
    let expected = "li1337e5:stuffe";

    let actual = BList(vec![1337.into(), "stuff".into()]).encode();

    assert_eq!(expected, str::from_utf8(&actual).unwrap())
}

#[test]
fn items_nested_list() {
    let expected = "llll3:fooeeee";

    let actual = BList(vec![vec![vec![vec!["foo".into()].into()].into()].into()]).encode();

    assert_eq!(expected, str::from_utf8(&actual).unwrap())
}

#[test]
fn items_empty_dictionary() {
    let expected = "de";

    let actual = BDictionary(vec![]).encode();

    assert_eq!(expected, str::from_utf8(&actual).unwrap())
}

#[test]
fn items_simple_dictionary() {
    let expected = "d3:fooli34e3:bari-50eee";

    let mut map = BDictionary(vec![]);
    map.insert("foo".into(), vec![34.into(), "bar".into(), (-50).into()].into());

    let actual = map.encode();

    assert_eq!(expected, str::from_utf8(&actual).unwrap())
}

#[test]
fn negative_integer_encoding() {
    assert_eq!(b"i-1e".to_vec(), BInteger(-1).encode());
    assert_eq!(
        b"i-9223372036854775808e".to_vec(),
        BInteger(-9223372036854775808).encode()
    );
    assert_eq!(b"i0e".to_vec(), BInteger(0).encode());
}

#[test]
fn item_encoding_matches_variant_encoding() {
    let item: Item = 42.into();
    assert_eq!(item.encode(), BInteger(42).encode());
}

#[test]
fn sequence_encoding_concatenates() {
    let items: Vec<Item> = vec!["foo".into(), 7.into()];
    assert_eq!(b"3:fooi7e".to_vec(), items.encode());
}

#[test]
fn insert_keeps_keys_sorted() {
    let mut map = BDictionary(vec![]);
    map.insert("foo".into(), 1.into());
    map.insert("bar".into(), 2.into());
    map.insert("baz".into(), 3.into());
    let keys: Vec<&[u8]> = map.0.iter().map(|(k, _)| k.0.as_slice()).collect();
    assert_eq!(keys, vec![&b"bar"[..], &b"baz"[..], &b"foo"[..]]);
}

#[test]
fn insert_replaces_an_equal_key() {
    let mut map = BDictionary(vec![]);
    map.insert("foo".into(), 1.into());
    map.insert("foo".into(), 2.into());
    assert_eq!(map.0.len(), 1);
    assert_eq!(map.0[0].1, 2.into());
}

#[test]
fn encode_is_repeatable() {
    let item: Item = vec![17.into(), "foo".into()].into();
    assert_eq!(item.encode(), item.encode());
}

#[test]
fn round_trip_of_a_built_tree() {
    let mut inner = BDictionary(vec![]);
    inner.insert("bar".into(), "spam".into());
    inner.insert("foo".into(), 42.into());
    let tree: Item = vec![
        Item::Dictionary(inner),
        17.into(),
        "baz".into(),
        vec![].into(),
    ]
    .into();

    let bytes = tree.encode();
    let decoded = Decoder::new(&bytes).decode().unwrap();
    assert_eq!(decoded, vec![tree]);
}

#[test]
fn round_trip_of_several_top_level_items() {
    let items: Vec<Item> = vec!["foo".into(), 17.into(), vec!["x".into()].into()];
    let bytes = items.encode();
    let decoded = Decoder::new(&bytes).decode().unwrap();
    assert_eq!(decoded, items);
}

#[test]
fn string_encoding_layout() {
    assert_eq!(b"4:spam".to_vec(), BString::from("spam").encode());
    let raw: Item = (&[0u8, 255u8][..]).into();
    assert_eq!(vec![b'2', b':', 0u8, 255u8], raw.encode());
}
