use librtorrent::bencode::{
    decode_to_vec, encode, encode_vec, read_dictionary, read_integer, read_list, read_string,
    BencodeGetErr, BencodeMap, BencodeMapDecoder, BencodeMapEncoder, BencodeParseErr, BencodeType,
    ERROR_INVALID_INTEGER, ERROR_INVALID_KEY, ERROR_MISSING_PREFIX, ERROR_MISSING_SUFFIX,
    ERROR_NEGATIVE_ZERO, ERROR_NON_NUMERIC_CHARACTER, ERROR_NOT_ENOUGH_CHARS,
};

fn text(s: &str) -> BencodeType {
    BencodeType::String(String::from(s).into_bytes())
}

// INTEGER READ TESTS
#[test]
fn read_integer_success() {
    let data = "i3e".as_bytes();
    let expected = Ok(BencodeType::Integer(3));

    let result = read_integer(data);

    assert_eq!(result, expected)
}

#[test]
fn read_integer_invalid_format() {
    let data = "ie3".as_bytes();
    let expected = Err(BencodeParseErr::InvalidIntegerBencode(String::from(
        ERROR_INVALID_INTEGER,
    )));

    let result = read_integer(data);

    assert_eq!(result, expected)
}

#[test]
fn read_integer_non_numeric() {
    let data = "i0te".as_bytes();
    let expected = Err(BencodeParseErr::InvalidIntegerBencode(String::from(
        ERROR_NON_NUMERIC_CHARACTER,
    )));

    let result = read_integer(data);

    assert_eq!(result, expected)
}

#[test]
fn read_integer_neg_zero() {
    let data = "i-0e".as_bytes();
    let expected = Err(BencodeParseErr::InvalidIntegerBencode(String::from(
        ERROR_NEGATIVE_ZERO,
    )));

    let result = read_integer(data);

    assert_eq!(result, expected)
}

// STRING READ TESTS
#[test]
fn read_string_success() {
    let data = "6:pieces".as_bytes();
    let expected = Ok(BencodeType::String(String::from("pieces").into_bytes()));
    let result = read_string(data);

    assert_eq!(result, expected)
}

#[test]
fn read_string_no_chars() {
    let data = "0:".as_bytes();
    let expected = Ok(BencodeType::String(String::from("").into_bytes()));

    let result = read_string(data);

    assert_eq!(result, expected)
}

#[test]
fn read_string_invalid_len_char() {
    let data = "4r:test".as_bytes();
    let expected = Err(BencodeParseErr::InvalidStringBencode(String::from(
        ERROR_NON_NUMERIC_CHARACTER,
    )));

    let result = read_string(data);

    assert_eq!(result, expected)
}

#[test]
fn read_string_not_enough_chars() {
    let data = "4:hi".as_bytes();
    let expected = Err(BencodeParseErr::InvalidStringBencode(String::from(
        ERROR_NOT_ENOUGH_CHARS,
    )));

    let result = read_string(data);

    assert_eq!(result, expected)
}

#[test]
fn read_string_no_len() {
    let data = ":hi".as_bytes();
    let expected = Err(BencodeParseErr::InvalidStringBencode(String::from(
        ERROR_MISSING_PREFIX,
    )));

    let result = read_string(data);

    assert_eq!(result, expected)
}

// LIST READ TESTS
#[test]
fn read_list_success() {
    let data = "l4:spam4:eggse".as_bytes();
    let expected = Ok(BencodeType::List(vec![
        BencodeType::String(String::from("spam").into_bytes()),
        BencodeType::String(String::from("eggs").into_bytes()),
    ]));

    let result = read_list(data);

    assert_eq!(result, expected)
}

#[test]
fn read_list_nested() {
    let data = "l4:spaml4:eggsee".as_bytes();
    let expected = Ok(BencodeType::List(vec![
        BencodeType::String(String::from("spam").into_bytes()),
        BencodeType::List(vec![BencodeType::String(String::from("eggs").into_bytes())]),
    ]));

    let result = read_list(data);

    assert_eq!(result, expected)
}

#[test]
fn read_list_invalid_string() {
    let data = "l24:spam4:eggse".as_bytes();
    let expected = Err(BencodeParseErr::InvalidStringBencode(String::from(
        ERROR_NOT_ENOUGH_CHARS,
    )));

    let result = read_list(data);

    assert_eq!(result, expected)
}

#[test]
fn read_list_invalid_bencode() {
    let data = "lx23e".as_bytes();
    let expected = Err(BencodeParseErr::InvalidBencode(b'x'.to_string()));

    let result = read_list(data);

    assert_eq!(result, expected)
}

#[test]
fn read_list_missing_prefix() {
    let data = "i2ee".as_bytes();
    let expected = Err(BencodeParseErr::InvalidListBencode(String::from(
        ERROR_MISSING_PREFIX,
    )));

    let result = read_list(data);

    assert_eq!(result, expected)
}

#[test]
fn read_list_missing_suffix() {
    let data = "li2e".as_bytes();
    let expected = Err(BencodeParseErr::InvalidListBencode(String::from(
        ERROR_MISSING_SUFFIX,
    )));

    let result = read_list(data);

    assert_eq!(result, expected)
}

// DICTIONARY READ TESTS
#[test]
fn read_dictionary_success() {
    let data = "d3:cow3:moo4:spam4:eggse".as_bytes();
    let mut map: BencodeMap = BencodeMap::new();
    map.insert(
        String::from("cow").into_bytes(),
        BencodeType::String(String::from("moo").into_bytes()),
    );
    map.insert(
        String::from("spam").into_bytes(),
        BencodeType::String(String::from("eggs").into_bytes()),
    );
    let expected = Ok(BencodeType::Dictionary(map));

    let result = read_dictionary(data);

    assert_eq!(result, expected)
}

#[test]
fn read_dictionary_nested_map() {
    let data = "d3:cow3:moo4:spam4:eggs4:dictd3:key5:valueee".as_bytes();

    let mut map: BencodeMap = BencodeMap::new();
    map.insert(
        String::from("cow").into_bytes(),
        BencodeType::String(String::from("moo").into_bytes()),
    );
    map.insert(
        String::from("spam").into_bytes(),
        BencodeType::String(String::from("eggs").into_bytes()),
    );

    let mut nested: BencodeMap = BencodeMap::new();
    nested.insert(
        String::from("key").into_bytes(),
        BencodeType::String(String::from("value").into_bytes()),
    );
    map.insert(
        String::from("dict").into_bytes(),
        BencodeType::Dictionary(nested),
    );

    let expected = Ok(BencodeType::Dictionary(map));

    let result = read_dictionary(data);

    assert_eq!(result, expected)
}

#[test]
fn read_dictionary_missing_prefix() {
    let data = "3:cow3:moo4:spam4:eggse".as_bytes();
    let expected = Err(BencodeParseErr::InvalidDictionaryBencode(String::from(
        ERROR_MISSING_PREFIX,
    )));

    let result = read_dictionary(data);

    assert_eq!(result, expected)
}

#[test]
fn read_dictionary_invalid_key() {
    let data = "die33:moo4:spam4:eggse".as_bytes();
    let expected = Err(BencodeParseErr::InvalidDictionaryBencode(String::from(
        ERROR_INVALID_KEY,
    )));

    let result = read_dictionary(data);

    assert_eq!(result, expected)
}

#[test]
fn read_dictionary_missing_suffix() {
    let data = "d3:cow3:moo4:spam4:eggs".as_bytes();
    let expected = Err(BencodeParseErr::InvalidDictionaryBencode(String::from(
        ERROR_MISSING_SUFFIX,
    )));

    let result = read_dictionary(data);

    assert_eq!(result, expected)
}

// DECODE / ENCODE
#[test]
fn decode_zero_integer() {
    assert_eq!(decode_to_vec(b"i0e"), Ok(vec![BencodeType::Integer(0)]));
}

#[test]
fn decode_empty_byte_string() {
    assert_eq!(decode_to_vec(b"0:"), Ok(vec![BencodeType::String(vec![])]));
}

#[test]
fn decode_negative_zero_rejected() {
    assert_eq!(
        decode_to_vec(b"i-0e"),
        Err(BencodeParseErr::InvalidIntegerBencode(String::from(ERROR_NEGATIVE_ZERO)))
    );
}

#[test]
fn decode_empty_input_is_no_values() {
    assert_eq!(decode_to_vec(b""), Ok(vec![]));
}

#[test]
fn decode_several_top_level_values() {
    assert_eq!(
        decode_to_vec(b"i1e3:abcle"),
        Ok(vec![BencodeType::Integer(1), text("abc"), BencodeType::List(vec![])])
    );
}

#[test]
fn decode_extreme_integers() {
    assert_eq!(
        decode_to_vec(b"i-9223372036854775808e"),
        Ok(vec![BencodeType::Integer(i64::MIN)])
    );
    assert_eq!(
        decode_to_vec(b"i9223372036854775807e"),
        Ok(vec![BencodeType::Integer(i64::MAX)])
    );
}

#[test]
fn decode_integer_overflow_rejected() {
    assert_eq!(
        decode_to_vec(b"i9223372036854775808e"),
        Err(BencodeParseErr::InvalidIntegerBencode(String::from(ERROR_INVALID_INTEGER)))
    );
    assert_eq!(
        decode_to_vec(b"i-9223372036854775809e"),
        Err(BencodeParseErr::InvalidIntegerBencode(String::from(ERROR_INVALID_INTEGER)))
    );
}

#[test]
fn decode_lone_minus_rejected() {
    assert_eq!(
        read_integer(b"i-e"),
        Err(BencodeParseErr::InvalidIntegerBencode(String::from(ERROR_INVALID_INTEGER)))
    );
}

#[test]
fn decode_integer_without_suffix_rejected() {
    assert_eq!(
        read_integer(b"i12"),
        Err(BencodeParseErr::InvalidIntegerBencode(String::from(ERROR_MISSING_SUFFIX)))
    );
}

#[test]
fn decode_integer_without_prefix_rejected() {
    assert_eq!(
        read_integer(b"3e"),
        Err(BencodeParseErr::InvalidIntegerBencode(String::from(ERROR_MISSING_PREFIX)))
    );
}

#[test]
fn decode_value_missing_after_key() {
    assert_eq!(decode_to_vec(b"d3:cow"), Err(BencodeParseErr::EmptyBencode));
}

#[test]
fn decode_unknown_start_byte() {
    assert_eq!(
        decode_to_vec(b"x"),
        Err(BencodeParseErr::InvalidBencode(String::from("120")))
    );
}

#[test]
fn decode_dictionary_scenario_reencodes() {
    let data = b"d3:cow3:moo4:spam4:eggse";
    let values = decode_to_vec(data).unwrap();
    let mut expected = BencodeMap::new();
    expected.insert(b"cow".to_vec(), text("moo"));
    expected.insert(b"spam".to_vec(), text("eggs"));
    assert_eq!(values, vec![BencodeType::Dictionary(expected)]);
    assert_eq!(encode(&values[0]), data.to_vec());
}

#[test]
fn decode_nested_list_scenario() {
    assert_eq!(
        decode_to_vec(b"l4:spaml4:eggsee"),
        Ok(vec![BencodeType::List(vec![
            text("spam"),
            BencodeType::List(vec![text("eggs")])
        ])])
    );
}

#[test]
fn encode_integers_and_strings() {
    assert_eq!(encode(&BencodeType::Integer(0)), b"i0e".to_vec());
    assert_eq!(encode(&BencodeType::Integer(-42)), b"i-42e".to_vec());
    assert_eq!(encode(&BencodeType::Integer(i64::MIN)), b"i-9223372036854775808e".to_vec());
    assert_eq!(encode(&text("spam")), b"4:spam".to_vec());
    assert_eq!(encode(&BencodeType::String(vec![])), b"0:".to_vec());
}

#[test]
fn encode_vec_decodes_back() {
    let mut m = BencodeMap::new();
    m.insert(b"z".to_vec(), BencodeType::List(vec![BencodeType::Integer(-3)]));
    m.insert(b"a".to_vec(), text("x"));
    let values = vec![BencodeType::Dictionary(m), BencodeType::Integer(7), text("")];
    assert_eq!(decode_to_vec(&encode_vec(&values)), Ok(values));
}

#[test]
fn encode_vec_concatenates() {
    let values = vec![BencodeType::Integer(1), text("ab")];
    assert_eq!(encode_vec(&values), b"i1e2:ab".to_vec());
}

#[test]
fn encode_sorts_keys_whatever_the_insertion_order() {
    let mut first = BencodeMap::new();
    first.insert(b"zeta".to_vec(), BencodeType::Integer(1));
    first.insert(b"alpha".to_vec(), BencodeType::Integer(2));
    first.insert(b"mid".to_vec(), BencodeType::Integer(3));
    let mut second = BencodeMap::new();
    second.insert(b"mid".to_vec(), BencodeType::Integer(3));
    second.insert(b"alpha".to_vec(), BencodeType::Integer(2));
    second.insert(b"zeta".to_vec(), BencodeType::Integer(1));
    let a = encode(&BencodeType::Dictionary(first));
    let b = encode(&BencodeType::Dictionary(second));
    assert_eq!(a, b);
    assert_eq!(a, b"d5:alphai2e3:midi3e4:zetai1ee".to_vec());
}

#[test]
fn insert_replaces_value_of_present_key() {
    let mut map = BencodeMap::new();
    map.insert(b"k".to_vec(), BencodeType::Integer(1));
    map.insert(b"k".to_vec(), BencodeType::Integer(2));
    assert_eq!(map.len(), 1);
    assert_eq!(map.get(b"k"), Some(&BencodeType::Integer(2)));
    assert_eq!(map.get(b"other"), None);
}

#[test]
fn prefix_key_sorts_first() {
    let mut map = BencodeMap::new();
    map.insert(b"ab".to_vec(), BencodeType::Integer(1));
    map.insert(b"a".to_vec(), BencodeType::Integer(2));
    assert_eq!(map.keys(), vec![b"a".to_vec(), b"ab".to_vec()]);
}

#[test]
fn round_trip_of_nested_value() {
    let mut inner = BencodeMap::new();
    inner.insert(b"n".to_vec(), BencodeType::Integer(-7));
    inner.insert(b"b".to_vec(), BencodeType::String(vec![0, 255, 10]));
    let value = BencodeType::List(vec![
        BencodeType::Dictionary(inner),
        BencodeType::List(vec![]),
        BencodeType::Integer(12345),
    ]);
    let bytes = encode(&value);
    assert_eq!(decode_to_vec(&bytes), Ok(vec![value]));
}

#[test]
fn decoding_reorders_unsorted_keys() {
    let values = decode_to_vec(b"d1:bi1e1:ai2ee").unwrap();
    assert_eq!(encode(&values[0]), b"d1:ai2e1:bi1ee".to_vec());
}

#[test]
fn try_decode_and_get_encode() {
    let map = BencodeMap::try_decode(b"d3:cow3:mooe").unwrap();
    assert_eq!(map.get_encode(), b"d3:cow3:mooe".to_vec());
    assert_eq!(
        BencodeMap::try_decode(b""),
        Err(BencodeParseErr::InvalidDictionaryBencode(String::from(ERROR_MISSING_PREFIX)))
    );
    assert_eq!(
        BencodeMap::try_decode(b"li1ee"),
        Err(BencodeParseErr::InvalidDictionaryBencode(String::from(ERROR_MISSING_PREFIX)))
    );
}

#[test]
fn string_getters() {
    assert_eq!(text("abc").get_string().unwrap(), b"abc".to_vec());
    assert!(matches!(BencodeType::Integer(1).get_string(), Err(BencodeGetErr::InvalidType)));
    assert_eq!(text("héllo").get_utf8_string().unwrap(), String::from("héllo"));
    assert!(matches!(
        BencodeType::String(vec![0xff, 0xfe]).get_utf8_string(),
        Err(BencodeGetErr::InvalidUtf8)
    ));
    assert!(matches!(BencodeType::Integer(1).get_utf8_string(), Err(BencodeGetErr::InvalidUtf8)));
}

#[test]
fn typed_map_getters() {
    let map = BencodeMap::try_decode(b"d1:ai5e1:b2:hi1:ll2:x12:y2e1:mld1:ki1eeee").unwrap();
    assert_eq!(map.get_int(b"a"), Some(5));
    assert_eq!(map.get_int(b"b"), None);
    assert_eq!(map.get_bytes(b"b"), Some(b"hi".to_vec()));
    assert_eq!(map.get_text(b"b"), Some(String::from("hi")));
    assert_eq!(
        map.get_text_list(b"l"),
        Some(vec![String::from("x1"), String::from("y2")])
    );
    assert_eq!(map.get_dictionary_list(b"m").map(|v| v.len()), Some(1));
    assert!(map.get_dictionary(b"a").is_none());
}

#[test]
fn clone_keeps_value() {
    let value = decode_to_vec(b"d1:ali1e2:xyee").unwrap().remove(0);
    assert_eq!(value.clone(), value);
}
