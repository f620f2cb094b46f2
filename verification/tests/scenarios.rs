use cbor_codec::de::{decode_all, Deserializer, StreamDecoder};
use cbor_codec::error::Error;
use cbor_codec::owned;
use cbor_codec::peek::peek_with_len;
use cbor_codec::value::{from_slice, to_vec, to_vec_sd, ObjectKey, Value};

fn hex_digit(c: u8) -> u8 {
    match c {
        b'0'..=b'9' => c - b'0',
        b'a'..=b'f' => c - b'a' + 10,
        b'A'..=b'F' => c - b'A' + 10,
        _ => panic!("bad hex digit"),
    }
}

fn hex(h: &str) -> Vec<u8> {
    let b = h.as_bytes();
    assert_eq!(b.len() % 2, 0);
    b.chunks(2).map(|p| (hex_digit(p[0]) << 4) | hex_digit(p[1])).collect()
}

#[test]
fn encode_decode_small_integer() {
    assert_eq!(to_vec(&Value::U64(10)), hex("0a"));
    assert_eq!(from_slice(hex("0a").as_slice()), Ok(Value::U64(10)));
}

#[test]
fn encode_decode_negative_integer() {
    assert_eq!(to_vec(&Value::I64(-1000)), hex("3903e7"));
    assert_eq!(from_slice(hex("3903e7").as_slice()), Ok(Value::I64(-1000)));
}

#[test]
fn encode_decode_text() {
    assert_eq!(to_vec(&Value::String("IETF".to_string())), hex("6449455446"));
    assert_eq!(
        from_slice(hex("6449455446").as_slice()),
        Ok(Value::String("IETF".to_string()))
    );
}

#[test]
fn encode_decode_array() {
    let v = Value::Array(vec![Value::U64(1), Value::U64(2), Value::U64(3)]);
    assert_eq!(to_vec(&v), hex("83010203"));
    assert_eq!(from_slice(hex("83010203").as_slice()), Ok(v));
}

#[test]
fn encode_decode_map_canonical() {
    let v = Value::Object(vec![
        (ObjectKey::String("a".to_string()), Value::U64(1)),
        (
            ObjectKey::String("b".to_string()),
            Value::Array(vec![Value::U64(2), Value::U64(3)]),
        ),
    ]);
    assert_eq!(to_vec(&v), hex("a26161016162820203"));
    assert_eq!(from_slice(hex("a26161016162820203").as_slice()), Ok(v));
}

#[test]
fn map_sorts_integer_keys_canonically() {
    let v = Value::Object(vec![
        (ObjectKey::Integer(2), Value::String("a".to_string())),
        (ObjectKey::Integer(1), Value::String("b".to_string())),
    ]);
    assert_eq!(to_vec(&v), hex("a2016162026161"));
}

#[test]
fn indefinite_text_assembles() {
    let v = owned::indefinite_text(&["Mary ", "Had ", "a ", "Little ", "", "Lamb"]);
    let bytes = v.to_vec();
    assert_eq!(
        bytes,
        hex("7f654d617279206448616420626120674c6974746c652060644c616d62ff")
    );
    let decoded = from_slice(bytes.as_slice()).unwrap();
    assert_eq!(decoded, Value::String("Mary Had a Little Lamb".to_string()));
    match &decoded {
        Value::String(s) => assert_eq!(s.len(), 22),
        _ => panic!("expected text"),
    }
}

#[test]
fn empty_values() {
    assert_eq!(to_vec(&Value::String(String::new())), hex("60"));
    assert_eq!(to_vec(&Value::Bytes(vec![])), hex("40"));
    assert_eq!(to_vec(&Value::Array(vec![])), hex("80"));
    assert_eq!(to_vec(&Value::Object(vec![])), hex("a0"));
    assert_eq!(from_slice(hex("60").as_slice()), Ok(Value::String(String::new())));
    assert_eq!(from_slice(hex("40").as_slice()), Ok(Value::Bytes(vec![])));
    assert_eq!(from_slice(hex("80").as_slice()), Ok(Value::Array(vec![])));
    assert_eq!(from_slice(hex("a0").as_slice()), Ok(Value::Object(vec![])));
}

#[test]
fn indefinite_containers_with_zero_chunks() {
    let chunks: [&[u8]; 0] = [];
    assert_eq!(owned::indefinite_bytes(&chunks).to_vec(), hex("5fff"));
    let texts: [&str; 0] = [];
    assert_eq!(owned::indefinite_text(&texts).to_vec(), hex("7fff"));
    assert_eq!(owned::indefinite_array(vec![]).to_vec(), hex("9fff"));
    assert_eq!(owned::indefinite_map(vec![]).to_vec(), hex("bfff"));
    assert_eq!(from_slice(hex("5fff").as_slice()), Ok(Value::Bytes(vec![])));
    assert_eq!(from_slice(hex("7fff").as_slice()), Ok(Value::String(String::new())));
    assert_eq!(from_slice(hex("9fff").as_slice()), Ok(Value::Array(vec![])));
    assert_eq!(from_slice(hex("bfff").as_slice()), Ok(Value::Object(vec![])));
}

#[test]
fn nested_indefinite_containers() {
    let v = owned::indefinite_array(vec![
        owned::indefinite_array(vec![owned::usmall(1)]),
        owned::indefinite_map(vec![owned::key_value(owned::usmall(2), owned::usmall(3))]),
    ]);
    let bytes = v.to_vec();
    assert_eq!(bytes, hex("9f9f01ffbf0203ffff"));
    let got = cbor_codec::peek::peek(bytes.as_slice()).unwrap();
    assert_eq!(got, v);
    assert_eq!(got.to_vec(), bytes);
    assert_eq!(
        from_slice(bytes.as_slice()),
        Ok(Value::Array(vec![
            Value::Array(vec![Value::U64(1)]),
            Value::Object(vec![(ObjectKey::Integer(2), Value::U64(3))]),
        ]))
    );
}

#[test]
fn self_describe_outermost_and_nested() {
    let sd = to_vec_sd(&Value::Array(vec![Value::U64(1)]));
    assert_eq!(sd, hex("d9d9f78101"));
    assert_eq!(
        from_slice(sd.as_slice()),
        Ok(Value::Array(vec![Value::U64(1)]))
    );
    let nested = owned::array(vec![owned::self_describe(owned::usmall(5))]);
    let bytes = nested.to_vec();
    assert_eq!(bytes, hex("81d9d9f705"));
    assert_eq!(from_slice(bytes.as_slice()), Ok(Value::Array(vec![Value::U64(5)])));
}

#[test]
fn half_float_decoding() {
    assert_eq!(from_slice(hex("f90000").as_slice()), Ok(Value::F64(0.0f64.to_bits())));
    assert_eq!(from_slice(hex("f98000").as_slice()), Ok(Value::F64((-0.0f64).to_bits())));
    assert_eq!(from_slice(hex("f93c00").as_slice()), Ok(Value::F64(1.0f64.to_bits())));
    let sub = from_slice(hex("f90001").as_slice()).unwrap();
    match sub {
        Value::F64(bits) => assert_eq!(f64::from_bits(bits), 2.0f64.powi(-24)),
        _ => panic!("expected a float"),
    }
    assert_eq!(
        from_slice(hex("f97c00").as_slice()),
        Ok(Value::F64(f64::INFINITY.to_bits()))
    );
    assert_eq!(
        from_slice(hex("f9fc00").as_slice()),
        Ok(Value::F64(f64::NEG_INFINITY.to_bits()))
    );
    match from_slice(hex("f97e00").as_slice()).unwrap() {
        Value::F64(bits) => assert!(f64::from_bits(bits).is_nan()),
        _ => panic!("expected a float"),
    }
    match from_slice(hex("f93ccd").as_slice()).unwrap() {
        Value::F64(bits) => {
            let f = f64::from_bits(bits);
            assert!((f - 1.2001953125).abs() < 1e-12);
        }
        _ => panic!("expected a float"),
    }
}

#[test]
fn single_float_decoding() {
    assert_eq!(
        from_slice(hex("fa40900000").as_slice()),
        Ok(Value::F64(4.5f64.to_bits()))
    );
    assert_eq!(
        from_slice(hex("fb401acccccccccccd").as_slice()),
        Ok(Value::F64(6.7f64.to_bits()))
    );
}

#[test]
fn float_encoding_keeps_width() {
    assert_eq!(to_vec(&Value::F64(1.5f64.to_bits())), hex("fb3ff8000000000000"));
    assert_eq!(
        from_slice(hex("fb3ff8000000000000").as_slice()),
        Ok(Value::F64(1.5f64.to_bits()))
    );
}

#[test]
fn recursion_limit_at_configured_depth() {
    let mut deep_ok: Vec<u8> = Vec::new();
    for _ in 0..127 {
        deep_ok.push(0x81);
    }
    deep_ok.push(0x80);
    assert!(peek_with_len(deep_ok.as_slice(), 128).is_ok());

    let mut too_deep: Vec<u8> = Vec::new();
    for _ in 0..128 {
        too_deep.push(0x81);
    }
    too_deep.push(0x80);
    assert_eq!(
        peek_with_len(too_deep.as_slice(), 128),
        Err(Error::RecursionLimit)
    );
}

#[test]
fn invalid_utf8_text_fails() {
    assert_eq!(from_slice(hex("62c328").as_slice()), Err(Error::InvalidUtf8));
    assert_eq!(
        peek_with_len(hex("62c328").as_slice(), 128),
        Err(Error::InvalidUtf8)
    );
    assert_eq!(
        peek_with_len(hex("7f62c328ff").as_slice(), 128),
        Err(Error::InvalidUtf8)
    );
}

#[test]
fn error_variants_on_malformed_input() {
    assert_eq!(peek_with_len(hex("19").as_slice(), 128), Err(Error::UnexpectedEof));
    assert_eq!(peek_with_len(hex("ff").as_slice(), 128), Err(Error::UnexpectedBreak));
    assert_eq!(peek_with_len(hex("1c").as_slice(), 128), Err(Error::MalformedHead));
    assert_eq!(peek_with_len(hex("f810").as_slice(), 128), Err(Error::MalformedHead));
    assert_eq!(peek_with_len(hex("5f00ff").as_slice(), 128), Err(Error::InvalidIndefinite));
    assert_eq!(peek_with_len(hex("5f7f60ffff").as_slice(), 128), Err(Error::InvalidIndefinite));
    assert_eq!(from_slice(hex("0000").as_slice()), Err(Error::TrailingBytes));
    assert_eq!(
        from_slice(hex("3bffffffffffffffff").as_slice()),
        Err(Error::OutOfRange)
    );
    assert_eq!(from_slice(hex("f8ff").as_slice()), Err(Error::SchemaMismatch));
}

#[test]
fn stream_decoder_yields_each_item() {
    let mut bytes = to_vec(&Value::U64(1));
    bytes.extend_from_slice(to_vec(&Value::String("a".to_string())).as_slice());
    bytes.extend_from_slice(to_vec(&Value::Array(vec![Value::U64(2)])).as_slice());

    let items = decode_all(bytes.as_slice()).unwrap();
    assert_eq!(items.len(), 3);
    assert_eq!(items[0], owned::uint(1));
    assert_eq!(items[1], owned::text("a"));
    assert_eq!(items[2], owned::array(vec![owned::uint(2)]));

    let mut sd = StreamDecoder::new(bytes.as_slice());
    let (v1, o1) = sd.next_item().unwrap().unwrap();
    assert_eq!((v1, o1), (owned::uint(1), 0));
    let (v2, o2) = sd.next_item().unwrap().unwrap();
    assert_eq!((v2, o2), (owned::text("a"), 1));
    let (v3, o3) = sd.next_item().unwrap().unwrap();
    assert_eq!((v3, o3), (owned::array(vec![owned::uint(2)]), 3));
    assert!(sd.next_item().is_none());
}

#[test]
fn deserializer_checks_exhaustion() {
    let bytes = hex("0a0b");
    let mut de = Deserializer::new(bytes.as_slice());
    assert_eq!(de.value(), Ok(Value::U64(10)));
    assert_eq!(de.end(), Err(Error::TrailingBytes));
    assert_eq!(de.value(), Ok(Value::U64(11)));
    assert_eq!(de.end(), Ok(()));
}

#[test]
fn non_canonical_integers_are_kept_on_the_wire() {
    let wide = owned::u64(1);
    let bytes = wide.to_vec();
    assert_eq!(bytes, hex("1b0000000000000001"));
    let back = cbor_codec::peek::peek(bytes.as_slice()).unwrap();
    assert_eq!(back, wide);
    assert_eq!(back.to_vec(), bytes);
    assert_eq!(from_slice(bytes.as_slice()), Ok(Value::U64(1)));
}

#[test]
fn tags_pass_through_dynamic_decoding() {
    let tagged = owned::tag(1, owned::uint(1363896240));
    let bytes = tagged.to_vec();
    assert_eq!(bytes, hex("c11a514b67b0"));
    assert_eq!(from_slice(bytes.as_slice()), Ok(Value::U64(1363896240)));
    let back = cbor_codec::peek::peek(bytes.as_slice()).unwrap();
    assert_eq!(back, tagged);
}

#[test]
fn duplicate_keys_are_kept_in_order() {
    let v = Value::Object(vec![
        (ObjectKey::Integer(1), Value::U64(7)),
        (ObjectKey::Integer(1), Value::U64(8)),
    ]);
    assert_eq!(to_vec(&v), hex("a201070108"));
}

#[test]
fn value_to_wire_matches_encoder() {
    let v = Value::Object(vec![
        (ObjectKey::String("a".to_string()), Value::U64(1)),
        (
            ObjectKey::String("b".to_string()),
            Value::Array(vec![Value::U64(2), Value::I64(-3)]),
        ),
    ]);
    let w = cbor_codec::value::value_to_wire(&v);
    assert_eq!(w.to_vec(), to_vec(&v));
    assert_eq!(cbor_codec::value::convert_item(&w), Ok(v));
}

#[test]
fn round_trip_decoder_form_values() {
    let vals = vec![
        Value::U64(0),
        Value::U64(18446744073709551615),
        Value::I64(-1),
        Value::I64(-9223372036854775808),
        Value::Bytes(vec![0, 1, 2]),
        Value::String("hello".to_string()),
        Value::Array(vec![Value::Null, Value::Bool(true), Value::Bool(false)]),
        Value::F64(3.25f64.to_bits()),
        Value::Null,
    ];
    for v in vals {
        let bytes = to_vec(&v);
        assert_eq!(from_slice(bytes.as_slice()), Ok(v));
    }
}

#[test]
fn decode_all_values_yields_each_value() {
    let mut bytes = to_vec(&Value::U64(1));
    bytes.extend_from_slice(to_vec(&Value::String("a".to_string())).as_slice());
    bytes.extend_from_slice(to_vec(&Value::Array(vec![Value::U64(2)])).as_slice());
    let vals = cbor_codec::de::decode_all_values(bytes.as_slice()).unwrap();
    assert_eq!(
        vals,
        vec![
            Value::U64(1),
            Value::String("a".to_string()),
            Value::Array(vec![Value::U64(2)]),
        ]
    );
}

#[test]
fn canonical_bytes_reencode_exactly() {
    let canonical = [
        "a2016162026161",
        "83010203",
        "6449455446",
        "fb3ff8000000000000",
        "1bffffffffffffffff",
        "3b7fffffffffffffff",
    ];
    for h in canonical {
        let bytes = hex(h);
        let v = from_slice(bytes.as_slice()).unwrap();
        assert_eq!(to_vec(&v), bytes);
    }
}
