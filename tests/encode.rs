use bencode_torrent::bencode::{decode, Bencode, Dict};
use bencode_torrent::encode::encode;

#[test]
fn encodes_integers() {
    assert_eq!(encode(&Bencode::Integer(42)), b"i42e".to_vec());
    assert_eq!(encode(&Bencode::Integer(-42)), b"i-42e".to_vec());
    assert_eq!(encode(&Bencode::Integer(0)), b"i0e".to_vec());
    assert_eq!(
        encode(&Bencode::Integer(i64::MIN)),
        b"i-9223372036854775808e".to_vec()
    );
}

#[test]
fn encodes_strings_and_lists() {
    assert_eq!(encode(&Bencode::String(b"spam".to_vec())), b"4:spam".to_vec());
    let list = Bencode::List(vec![
        Bencode::String(b"spam".to_vec()),
        Bencode::String(b"eggs".to_vec()),
    ]);
    assert_eq!(encode(&list), b"l4:spam4:eggse".to_vec());
}

#[test]
fn encodes_dictionary_keys_in_ascending_order() {
    let mut d = Dict::new();
    d.insert(b"spam".to_vec(), Bencode::String(b"eggs".to_vec()));
    d.insert(b"cow".to_vec(), Bencode::String(b"moo".to_vec()));
    assert_eq!(encode(&Bencode::Dictionary(d)), b"d3:cow3:moo4:spam4:eggse".to_vec());
}

#[test]
fn round_trip_of_nested_value() {
    let mut inner = Dict::new();
    inner.insert(b"z".to_vec(), Bencode::Integer(-7));
    inner.insert(b"ab".to_vec(), Bencode::String(vec![0, 255, b'e', b':']));
    inner.insert(b"a".to_vec(), Bencode::List(vec![]));
    let value = Bencode::List(vec![
        Bencode::Integer(i64::MAX),
        Bencode::Dictionary(inner),
        Bencode::String(vec![]),
    ]);
    let bytes = encode(&value);
    let (decoded, rest) = decode(&bytes).unwrap();
    assert_eq!(decoded, value);
    assert!(rest.is_empty());
}

#[test]
fn canonical_input_encodes_to_itself() {
    let input = b"d3:bazd5:blasti42e3:boo4:bumpe3:foo3:bare";
    let (value, _) = decode(input).unwrap();
    assert_eq!(encode(&value), input.to_vec());
}

#[test]
fn dictionary_inserted_out_of_order_round_trips() {
    let mut d = Dict::new();
    d.insert(b"b".to_vec(), Bencode::Integer(1));
    d.insert(b"a".to_vec(), Bencode::Integer(2));
    let value = Bencode::Dictionary(d);
    let bytes = encode(&value);
    assert_eq!(bytes, b"d1:ai2e1:bi1ee".to_vec());
    assert_eq!(decode(&bytes), Ok((value, &b""[..])));
}
