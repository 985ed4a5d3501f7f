use bittorrent_starter_rust::bencode::{decode, encode, BencodeValue, ParseError};

#[test]
fn decode_byte_string_literal() {
    let (v, used) = decode(b"4:spam").unwrap();
    assert_eq!(v, BencodeValue::ByteString(b"spam".to_vec()));
    assert_eq!(used, 6);
}

#[test]
fn decode_negative_integer_literal() {
    let (v, used) = decode(b"i-3e").unwrap();
    assert_eq!(v, BencodeValue::Integer(-3));
    assert_eq!(used, 4);
}

#[test]
fn decode_list_literal() {
    let (v, _) = decode(b"l4:spam4:eggse").unwrap();
    assert_eq!(
        v,
        BencodeValue::List(vec![
            BencodeValue::ByteString(b"spam".to_vec()),
            BencodeValue::ByteString(b"eggs".to_vec()),
        ])
    );
}

#[test]
fn decode_dict_literal_preserves_key_order() {
    let (v, _) = decode(b"d3:cow3:moo4:spam4:eggse").unwrap();
    let entries = match v {
        BencodeValue::Dict(entries) => entries,
        other => panic!("expected a dict, got {:?}", other),
    };
    assert_eq!(entries.len(), 2);
    assert_eq!(entries[0].0, b"cow".to_vec());
    assert_eq!(entries[0].1, BencodeValue::ByteString(b"moo".to_vec()));
    assert_eq!(entries[1].0, b"spam".to_vec());
    assert_eq!(entries[1].1, BencodeValue::ByteString(b"eggs".to_vec()));
}

#[test]
fn decode_keeps_the_remainder() {
    let (v, used) = decode(b"i7etrailing").unwrap();
    assert_eq!(v, BencodeValue::Integer(7));
    assert_eq!(used, 3);
}

#[test]
fn encode_integer() {
    assert_eq!(encode(&BencodeValue::Integer(42)), b"i42e".to_vec());
    assert_eq!(encode(&BencodeValue::Integer(-42)), b"i-42e".to_vec());
    assert_eq!(encode(&BencodeValue::Integer(0)), b"i0e".to_vec());
    assert_eq!(
        encode(&BencodeValue::Integer(i64::MIN)),
        b"i-9223372036854775808e".to_vec()
    );
}

#[test]
fn encode_byte_string() {
    assert_eq!(
        encode(&BencodeValue::ByteString(b"spam".to_vec())),
        b"4:spam".to_vec()
    );
    assert_eq!(encode(&BencodeValue::ByteString(Vec::new())), b"0:".to_vec());
}

#[test]
fn encode_nested_dict_in_stored_order() {
    let v = BencodeValue::Dict(vec![
        (b"b".to_vec(), BencodeValue::Integer(1)),
        (
            b"a".to_vec(),
            BencodeValue::List(vec![BencodeValue::Integer(2)]),
        ),
    ]);
    assert_eq!(encode(&v), b"d1:bi1e1:ali2eee".to_vec());
}

#[test]
fn round_trip_nested_tree() {
    let v = BencodeValue::Dict(vec![
        (
            b"announce".to_vec(),
            BencodeValue::ByteString(b"http://tracker".to_vec()),
        ),
        (
            b"list".to_vec(),
            BencodeValue::List(vec![
                BencodeValue::Integer(-1),
                BencodeValue::Integer(i64::MAX),
                BencodeValue::ByteString(Vec::new()),
                BencodeValue::Dict(Vec::new()),
                BencodeValue::List(Vec::new()),
            ]),
        ),
    ]);
    let bytes = encode(&v);
    let (decoded, used) = decode(&bytes).unwrap();
    assert_eq!(used, bytes.len());
    assert_eq!(decoded, v);
}

#[test]
fn round_trip_extreme_integers() {
    for i in [i64::MIN, i64::MIN + 1, -1, 0, 1, i64::MAX - 1, i64::MAX] {
        let v = BencodeValue::Integer(i);
        let bytes = encode(&v);
        let (decoded, used) = decode(&bytes).unwrap();
        assert_eq!(used, bytes.len());
        assert_eq!(decoded, v);
    }
}

#[test]
fn decode_accepts_minus_zero_and_leading_zeros() {
    assert_eq!(decode(b"i-0e").unwrap().0, BencodeValue::Integer(0));
    assert_eq!(decode(b"i03e").unwrap().0, BencodeValue::Integer(3));
}

#[test]
fn decode_rejects_unexpected_token() {
    assert_eq!(decode(b"x").unwrap_err(), ParseError::UnexpectedToken);
    assert_eq!(decode(b"le ").unwrap().0, BencodeValue::List(Vec::new()));
}

#[test]
fn decode_rejects_truncated_input() {
    assert_eq!(decode(b"").unwrap_err(), ParseError::Truncated);
    assert_eq!(decode(b"4:spa").unwrap_err(), ParseError::Truncated);
    assert_eq!(decode(b"i42").unwrap_err(), ParseError::Truncated);
    assert_eq!(decode(b"l4:spam").unwrap_err(), ParseError::Truncated);
}

#[test]
fn decode_rejects_malformed_integers() {
    assert_eq!(decode(b"ie").unwrap_err(), ParseError::InvalidInteger);
    assert_eq!(decode(b"i-e").unwrap_err(), ParseError::InvalidInteger);
    assert_eq!(decode(b"iabce").unwrap_err(), ParseError::InvalidInteger);
    // One past i64::MAX.
    assert_eq!(
        decode(b"i9223372036854775808e").unwrap_err(),
        ParseError::InvalidInteger
    );
    // i64::MIN itself is fine.
    assert_eq!(
        decode(b"i-9223372036854775808e").unwrap().0,
        BencodeValue::Integer(i64::MIN)
    );
    // One past it is not.
    assert_eq!(
        decode(b"i-9223372036854775809e").unwrap_err(),
        ParseError::InvalidInteger
    );
}

#[test]
fn decode_rejects_non_string_dict_keys() {
    assert_eq!(decode(b"di1e3:fooe").unwrap_err(), ParseError::NonStringKey);
    assert_eq!(
        decode(b"dl4:spame3:fooe").unwrap_err(),
        ParseError::NonStringKey
    );
}
