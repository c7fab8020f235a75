use bencode_torrent::bencode::{decode, Bencode, BencodeError, Dict};

#[test]
fn it_returns_error_on_invalid_input() {
    let input = b"hello world";
    let result = decode(input);

    assert!(result.is_err());
}

#[test]
fn it_decodes_integers() {
    let input = b"i42e";
    let result = decode(input);
    let expected = Ok((Bencode::Integer(42), &b""[..]));

    assert_eq!(result, expected);
}

#[test]
fn it_decodes_strings() {
    let input = b"7:bencode";
    let result = decode(input);
    let expected = Ok((Bencode::String(b"bencode".to_vec()), &b""[..]));

    assert_eq!(result, expected);
}

#[test]
fn it_decodes_lists() {
    let input = b"li42ee";
    let result = decode(input);
    let expected = Ok((Bencode::List(vec![Bencode::Integer(42)]), &b""[..]));

    assert_eq!(result, expected);
}

#[test]
fn it_decodes_dictionary() {
    let input = b"d4:wiki7:bencode7:meaningi42ee";
    let result = decode(input);

    let mut expected_dict = Dict::new();
    expected_dict.insert(b"wiki".to_vec(), Bencode::String(b"bencode".to_vec()));
    expected_dict.insert(b"meaning".to_vec(), Bencode::Integer(42));

    let expected = Ok((Bencode::Dictionary(expected_dict), &b""[..]));

    assert_eq!(result, expected);
}

#[test]
fn it_decodes_negative_integer() {
    let input = b"i-42e";
    let result = decode(input);
    let expected = Ok((Bencode::Integer(-42), &b""[..]));

    assert_eq!(result, expected);
}

#[test]
fn it_decodes_integer_and_returns_rest() {
    let input = b"i123ei456e";
    let result = decode(input);
    let expected = Ok((Bencode::Integer(123), &b"i456e"[..]));

    assert_eq!(result, expected);
}

#[test]
fn it_handles_invalid_integer() {
    let input = b"i12a3e";
    let result = decode(input);
    assert!(result.is_err());
}

#[test]
fn it_handles_no_end_marker_for_integer() {
    let input = b"i123";
    let result = decode(input);
    let expected = Err(BencodeError::NoEndMarker);

    assert_eq!(result, expected);
}

#[test]
fn it_decodes_string() {
    let input = b"7:bencode";
    let result = decode(input);
    let expected = Ok((Bencode::String(b"bencode".to_vec()), &b""[..]));

    assert_eq!(result, expected);
}

#[test]
fn it_decodes_string_with_two_digit_length() {
    let input = b"10:1234567890";
    let result = decode(input);
    let expected = Ok((Bencode::String(b"1234567890".to_vec()), &b""[..]));

    assert_eq!(result, expected);
}

#[test]
fn it_decodes_string_and_returns_rest() {
    let input = b"7:bencodei42e";
    let result = decode(input);
    let expected = Ok((Bencode::String(b"bencode".to_vec()), &b"i42e"[..]));

    assert_eq!(result, expected);
}

#[test]
fn it_handles_no_length_delimiter() {
    let input = b"7bencode";
    let result = decode(input);
    let expected = Err(BencodeError::NoStringDelimiter);

    assert_eq!(result, expected);
}

#[test]
fn it_handles_invalid_length_value() {
    let input = b"7a:bencode";
    let result = decode(input);

    assert!(result.is_err());
}

#[test]
fn it_decodes_list_with_one_element() {
    let input = b"li42ee";
    let result = decode(input);
    let expected = Ok((Bencode::List(vec![Bencode::Integer(42)]), &b""[..]));

    assert_eq!(result, expected);
}

#[test]
fn it_decodes_list_with_two_elements() {
    let input = b"li42ei-20ee";
    let result = decode(input);
    let result_vector = vec![Bencode::Integer(42), Bencode::Integer(-20)];
    let expected = Ok((Bencode::List(result_vector), &b""[..]));

    assert_eq!(result, expected);
}

#[test]
fn it_decodes_list_with_mixed_elements() {
    let input = b"li42e7:bencodee";
    let result = decode(input);
    let result_vector = vec![Bencode::Integer(42), Bencode::String(b"bencode".to_vec())];
    let expected = Ok((Bencode::List(result_vector), &b""[..]));

    assert_eq!(result, expected);
}

#[test]
fn it_decodes_list_with_list() {
    let input = b"li42eli42eee";
    let result = decode(input);
    let nested_result = Bencode::List(vec![Bencode::Integer(42)]);

    let expected = Ok((
        Bencode::List(vec![Bencode::Integer(42), nested_result]),
        &b""[..],
    ));

    assert_eq!(result, expected);
}

#[test]
fn it_decodes_nested_dictionaries() {
    let input = b"d3:foo3:bar3:bazd3:boo4:bump5:blasti42eee";
    let result = decode(input);

    let mut inner_dict = Dict::new();
    inner_dict.insert(b"boo".to_vec(), Bencode::String(b"bump".to_vec()));
    inner_dict.insert(b"blast".to_vec(), Bencode::Integer(42));

    let mut outer_dict = Dict::new();
    outer_dict.insert(b"foo".to_vec(), Bencode::String(b"bar".to_vec()));
    outer_dict.insert(b"baz".to_vec(), Bencode::Dictionary(inner_dict));

    let expected = Ok((Bencode::Dictionary(outer_dict), &b""[..]));

    assert_eq!(result, expected);
}

#[test]
fn decodes_spam_string() {
    assert_eq!(decode(b"4:spam"), Ok((Bencode::String(b"spam".to_vec()), &b""[..])));
}

#[test]
fn decodes_list_of_two_strings() {
    let expected = Bencode::List(vec![
        Bencode::String(b"spam".to_vec()),
        Bencode::String(b"eggs".to_vec()),
    ]);
    assert_eq!(decode(b"l4:spam4:eggse"), Ok((expected, &b""[..])));
}

#[test]
fn decodes_dictionary_in_key_order() {
    let mut d = Dict::new();
    d.insert(b"cow".to_vec(), Bencode::String(b"moo".to_vec()));
    d.insert(b"spam".to_vec(), Bencode::String(b"eggs".to_vec()));
    assert_eq!(decode(b"d3:cow3:moo4:spam4:eggse"), Ok((Bencode::Dictionary(d), &b""[..])));
}

#[test]
fn decoded_dictionary_keys_are_sorted() {
    let (value, _) = decode(b"d1:bi2e1:ai1ee").unwrap();
    let Bencode::Dictionary(d) = value else { panic!("not a dictionary") };
    let keys: Vec<Vec<u8>> = d.entries().iter().map(|(k, _)| k.clone()).collect();
    assert_eq!(keys, vec![b"a".to_vec(), b"b".to_vec()]);
    assert_eq!(d.get(b"b"), Some(&Bencode::Integer(2)));
}

#[test]
fn repeated_key_keeps_last_value() {
    let (value, _) = decode(b"d1:ki1e1:ki2ee").unwrap();
    let Bencode::Dictionary(d) = value else { panic!("not a dictionary") };
    assert_eq!(d.entries().len(), 1);
    assert_eq!(d.get(b"k"), Some(&Bencode::Integer(2)));
}

#[test]
fn non_numeric_integer_is_invalid_number() {
    assert_eq!(decode(b"i12a3e"), Err(BencodeError::InvalidNumber));
}

#[test]
fn empty_integer_is_invalid_number() {
    assert_eq!(decode(b"ie"), Err(BencodeError::InvalidNumber));
    assert_eq!(decode(b"i-e"), Err(BencodeError::InvalidNumber));
}

#[test]
fn plus_sign_is_invalid_number() {
    assert_eq!(decode(b"i+5e"), Err(BencodeError::InvalidNumber));
}

#[test]
fn integer_limits() {
    assert_eq!(
        decode(b"i9223372036854775807e"),
        Ok((Bencode::Integer(i64::MAX), &b""[..]))
    );
    assert_eq!(
        decode(b"i-9223372036854775808e"),
        Ok((Bencode::Integer(i64::MIN), &b""[..]))
    );
    assert_eq!(decode(b"i9223372036854775808e"), Err(BencodeError::InvalidNumber));
    assert_eq!(decode(b"i-9223372036854775809e"), Err(BencodeError::InvalidNumber));
}

#[test]
fn non_utf8_number_is_invalid_sequence() {
    assert_eq!(decode(b"i1\xffe"), Err(BencodeError::InvalidSequence));
    assert_eq!(decode(b"1\xff:a"), Err(BencodeError::InvalidSequence));
}

#[test]
fn length_past_end_is_reported() {
    assert_eq!(decode(b"10:abc"), Err(BencodeError::LengthExceedsInput));
    assert_eq!(
        decode(b"99999999999999999999999:abc"),
        Err(BencodeError::LengthExceedsInput)
    );
}

#[test]
fn unclosed_list_and_dictionary() {
    assert_eq!(decode(b"li1e"), Err(BencodeError::NoEndMarker));
    assert_eq!(decode(b"l"), Err(BencodeError::NoEndMarker));
    assert_eq!(decode(b"d1:ai1e"), Err(BencodeError::NoEndMarker));
}

#[test]
fn empty_input_is_invalid() {
    assert_eq!(decode(b""), Err(BencodeError::InvalidInput));
    assert_eq!(decode(b"x"), Err(BencodeError::InvalidInput));
}

#[test]
fn dictionary_key_must_be_a_string() {
    assert_eq!(decode(b"di1ei2ee"), Err(BencodeError::NoStringDelimiter));
    assert_eq!(decode(b"di1e1:ae"), Err(BencodeError::InvalidNumber));
}

#[test]
fn dictionary_without_value_is_invalid() {
    assert_eq!(decode(b"d1:a"), Err(BencodeError::InvalidInput));
}

#[test]
fn empty_containers() {
    assert_eq!(decode(b"le"), Ok((Bencode::List(vec![]), &b""[..])));
    assert_eq!(decode(b"de"), Ok((Bencode::Dictionary(Dict::new()), &b""[..])));
    assert_eq!(decode(b"0:"), Ok((Bencode::String(vec![]), &b""[..])));
}

#[test]
fn deep_nesting_is_refused() {
    let mut input = vec![b'l'; 600];
    input.extend(vec![b'e'; 600]);
    assert_eq!(decode(&input), Err(BencodeError::TooDeep));

    let mut within = vec![b'l'; 512];
    within.extend(vec![b'e'; 512]);
    assert!(decode(&within).is_ok());
}
