use cbor_codec::owned;
use cbor_codec::owned::OwnedValue;
use cbor_codec::peek;

fn hex_digit(c: u8) -> u8 {
    match c {
        b'0'..=b'9' => c - b'0',
        b'a'..=b'f' => c - b'a' + 10,
        b'A'..=b'F' => c - b'A' + 10,
        _ => panic!("bad hex digit"),
    }
}

fn hex(h: &str) -> Vec<u8> {
    let b = h.as_bytes();
    assert_eq!(b.len() % 2, 0);
    b.chunks(2).map(|p| (hex_digit(p[0]) << 4) | hex_digit(p[1])).collect()
}

fn assert_peek(expected: OwnedValue, h: &str, read: fn(&[u8]) -> Option<OwnedValue>) {
    let bytes = expected.to_vec();
    assert_eq!(bytes, hex(h), "{:?}", expected);
    let got = read(bytes.as_slice());
    assert!(got.is_some());
    assert_eq!(got.unwrap(), expected);
}

#[test]
fn array_small() {
    let v = owned::array(vec![
        owned::usmall(0),
        owned::u8(1),
        owned::u16(2),
        owned::u32(3),
        owned::u64(4),
    ]);
    assert_peek(v, "850018011900021a000000031b0000000000000004", peek::array);
}

#[test]
fn array_recurse() {
    let inner = owned::array(vec![
        owned::usmall(0),
        owned::u8(1),
        owned::u16(2),
        owned::u32(3),
        owned::u64(4),
    ]);
    let v = owned::array(vec![inner]);
    assert_peek(v, "81850018011900021a000000031b0000000000000004", peek::array);
}

#[test]
fn peek_indefinite_array() {
    let v = owned::indefinite_array(vec![
        owned::usmall(1),
        owned::usmall(2),
        owned::usmall(3),
        owned::usmall(4),
        owned::usmall(5),
        owned::usmall(6),
        owned::usmall(7),
        owned::usmall(8),
    ]);
    assert_peek(v, "9f0102030405060708ff", peek::indefinite_array);
}

#[test]
fn usmall() {
    let v = owned::usmall(8);
    let bytes = v.to_vec();
    assert_eq!(bytes, hex("08"));
    assert_eq!(peek::usmall(bytes.as_slice()), Some(owned::usmall(8)));
    assert_eq!(peek::peek_usmall(bytes.as_slice()), Some(8));
    assert!(peek::is_usmall(bytes.as_slice()));
    assert_eq!(peek::u8(bytes.as_slice()), None);
    assert_eq!(peek::peek_u8(hex("185a").as_slice()), Some(90));
}

#[test]
fn peek_widths() {
    assert_peek(owned::u8(90), "185a", peek::u8);
    assert_peek(owned::u16(9000), "192328", peek::u16);
    assert_peek(owned::u32(900_000), "1a000dbba0", peek::u32);
    assert_peek(owned::u64(90_000_000_000), "1b00000014f46b0400", peek::u64);
    assert_peek(owned::negative_usmall(9), "29", peek::negative_usmall);
    assert_peek(owned::negative_u8(90), "385a", peek::negative_u8);
    assert_peek(owned::negative_u16(9000), "392328", peek::negative_u16);
    assert_peek(owned::negative_u32(900_000), "3a000dbba0", peek::negative_u32);
    assert_peek(owned::negative_u64(90_000_000_000), "3b00000014f46b0400", peek::negative_u64);
}

#[test]
fn simple() {
    assert_peek(owned::true_value(), "f5", peek::true_value);
    assert_peek(owned::false_value(), "f4", peek::false_value);
    assert_peek(owned::null(), "f6", peek::null);
    assert_peek(owned::undefined(), "f7", peek::undefined);
}

#[test]
fn peek_floats() {
    assert_peek(owned::half_float_from_u16(0x3ccd), "f93ccd", peek::half_float);
    assert_peek(owned::single_float_from_u32(0x40900000), "fa40900000", peek::single_float);
    assert_peek(
        owned::double_float_from_u64(0x401acccccccccccd),
        "fb401acccccccccccd",
        peek::double_float,
    );
    assert_peek(owned::half_float_from_u16(0x3ccd), "f93ccd", peek::float);
}

#[test]
fn tag_simple() {
    let value = owned::tag(2, owned::usmall(0));
    assert_peek(value, "c200", peek::tag)
}

#[test]
fn self_describe() {
    let value = owned::self_describe(owned::usmall(0));
    assert_peek(value, "d9d9f700", peek::tag)
}

#[test]
fn tag_recursive() {
    let value = owned::tag(55799, owned::tag(2, owned::usmall(0)));
    assert_peek(value, "d9d9f7c200", peek::tag)
}

#[test]
fn text_simple() {
    let string = "Hello World";
    assert_peek(owned::text(string), "6b48656c6c6f20576f726c64", peek::text);
}

#[test]
fn peek_integer_signs() {
    assert_eq!(peek::ismall(hex("08").as_slice()), Some(owned::usmall(8)));
    assert_eq!(peek::ismall(hex("28").as_slice()), Some(owned::negative_usmall(8)));
    assert_eq!(peek::i8(hex("3859").as_slice()), Some(owned::negative_u8(89)));
    assert_eq!(peek::i16(hex("392327").as_slice()), Some(owned::negative_u16(8999)));
    assert_eq!(peek::i32(hex("3a00002327").as_slice()), Some(owned::negative_u32(8999)));
    assert_eq!(
        peek::i64(hex("3b0000000000002327").as_slice()),
        Some(owned::negative_u64(8999))
    );
    assert_eq!(peek::integer(hex("3903e7").as_slice()), Some(owned::negative_u16(999)));
    assert_eq!(peek::uint(hex("1818").as_slice()), Some(owned::u8(24)));
    assert_eq!(peek::uint(hex("f5").as_slice()), None);
    assert_eq!(peek::bool(hex("f5").as_slice()), Some(owned::true_value()));
    assert_eq!(peek::bool(hex("f4").as_slice()), Some(owned::false_value()));
    assert_eq!(peek::bool(hex("00").as_slice()), None);
}

#[test]
fn peek_round_trips_whole_items() {
    let v = owned::map(vec![
        owned::key_value(owned::text("a"), owned::usmall(1)),
        owned::key_value(owned::text("b"), owned::array(vec![owned::usmall(2), owned::usmall(3)])),
    ]);
    let bytes = v.to_vec();
    assert_eq!(bytes, hex("a26161016162820203"));
    let got = peek::peek(bytes.as_slice()).unwrap();
    assert_eq!(got, v);
    let again = got.to_vec();
    assert_eq!(again, bytes);
}
