use cbor_codec::owned;
use cbor_codec::owned::OwnedValue;

fn hex_digit(c: u8) -> u8 {
    match c {
        b'0'..=b'9' => c - b'0',
        b'a'..=b'f' => c - b'a' + 10,
        b'A'..=b'F' => c - b'A' + 10,
        _ => panic!("bad hex digit"),
    }
}

fn hex(h: &str) -> Vec<u8> {
    let b = h.as_bytes();
    assert_eq!(b.len() % 2, 0);
    b.chunks(2).map(|p| (hex_digit(p[0]) << 4) | hex_digit(p[1])).collect()
}

fn assert_value_owned(v: OwnedValue, h: &str) {
    let bytes = v.to_vec();
    assert_eq!(bytes, hex(h), "{:?}", v);
    assert_eq!(v.len(), bytes.len(), "length");
    assert!(!v.is_empty());
}

#[test]
fn numbers_test_usmall() {
    assert_value_owned(owned::usmall(0), "00");
    assert_value_owned(owned::usmall(9), "09");
    assert_value_owned(owned::usmall(22), "16");
    assert_value_owned(owned::usmall(23), "17");
    assert_value_owned(owned::usmall(24), "17");
    assert_value_owned(owned::usmall(90), "17");
}

#[test]
fn numbers_test_u8() {
    assert_value_owned(owned::u8(0), "1800");
    assert_value_owned(owned::u8(90), "185a");
    assert_value_owned(owned::u8(255), "18ff");
}

#[test]
fn numbers_test_u16() {
    assert_value_owned(owned::u16(0), "190000");
    assert_value_owned(owned::u16(90), "19005a");
    assert_value_owned(owned::u16(9000), "192328");
}

#[test]
fn numbers_test_u32() {
    assert_value_owned(owned::u32(0), "1a00000000");
    assert_value_owned(owned::u32(90), "1a0000005a");
    assert_value_owned(owned::u32(900_000), "1a000dbba0");
}

#[test]
fn numbers_test_u64() {
    assert_value_owned(owned::u64(0), "1b0000000000000000");
    assert_value_owned(owned::u64(90), "1b000000000000005a");
    assert_value_owned(owned::u64(900_000), "1b00000000000dbba0");
    assert_value_owned(owned::u64(90_000_000_000), "1b00000014f46b0400");
}

#[test]
fn negative_usmall() {
    assert_value_owned(owned::negative_usmall(0), "20");
    assert_value_owned(owned::negative_usmall(9), "29");
    assert_value_owned(owned::negative_usmall(23), "37");
    assert_value_owned(owned::negative_usmall(24), "37");
}

#[test]
fn numbers_test_ismall() {
    assert_value_owned(owned::ismall(0), "00");
    assert_value_owned(owned::ismall(-9), "28");
    assert_value_owned(owned::ismall(-23), "36");
    assert_value_owned(owned::ismall(-24), "37");
    assert_value_owned(owned::ismall(-25), "37");
    assert_value_owned(owned::ismall(-90), "37");
    assert_value_owned(owned::ismall(9), "09");
    assert_value_owned(owned::ismall(22), "16");
    assert_value_owned(owned::ismall(23), "17");
    assert_value_owned(owned::ismall(24), "17");
    assert_value_owned(owned::ismall(90), "17");
}

#[test]
fn numbers_test_i8() {
    assert_value_owned(owned::i8(0), "1800");
    assert_value_owned(owned::i8(90), "185a");
    assert_value_owned(owned::i8(127), "187f");
    assert_value_owned(owned::i8(0), "1800");
    assert_value_owned(owned::i8(-1), "3800");
    assert_value_owned(owned::i8(-90), "3859");
    assert_value_owned(owned::i8(-128), "387f");
}

#[test]
fn numbers_test_i16() {
    assert_value_owned(owned::i16(0), "190000");
    assert_value_owned(owned::i16(90), "19005a");
    assert_value_owned(owned::i16(9000), "192328");
    assert_value_owned(owned::i16(-1), "390000");
    assert_value_owned(owned::i16(-90), "390059");
    assert_value_owned(owned::i16(-9000), "392327");
}

#[test]
fn i32() {
    assert_value_owned(owned::i32(0), "1a00000000");
    assert_value_owned(owned::i32(90), "1a0000005a");
    assert_value_owned(owned::i32(9000), "1a00002328");
    assert_value_owned(owned::i32(-1), "3a00000000");
    assert_value_owned(owned::i32(-90), "3a00000059");
    assert_value_owned(owned::i32(-9000), "3a00002327");
}

#[test]
fn i64() {
    assert_value_owned(owned::i64(0), "1b0000000000000000");
    assert_value_owned(owned::i64(90), "1b000000000000005a");
    assert_value_owned(owned::i64(9000), "1b0000000000002328");
    assert_value_owned(owned::i64(-1), "3b0000000000000000");
    assert_value_owned(owned::i64(-90), "3b0000000000000059");
    assert_value_owned(owned::i64(-9000), "3b0000000000002327");
}

#[test]
fn array_test_array_small() {
    let v = owned::array(vec![
        owned::usmall(0),
        owned::u8(1),
        owned::u16(2),
        owned::u32(3),
        owned::u64(4),
    ]);
    assert_value_owned(v, "850018011900021a000000031b0000000000000004");
}

#[test]
fn array_test_array_recurse() {
    let inner = owned::array(vec![
        owned::usmall(0),
        owned::u8(1),
        owned::u16(2),
        owned::u32(3),
        owned::u64(4),
    ]);
    assert_value_owned(
        owned::array(vec![inner]),
        "81850018011900021a000000031b0000000000000004",
    );
}

#[test]
fn array_test_indefinite_array() {
    let values = vec![
        owned::usmall(1),
        owned::usmall(2),
        owned::usmall(3),
        owned::usmall(4),
        owned::usmall(5),
        owned::usmall(6),
        owned::usmall(7),
        owned::usmall(8),
    ];
    assert_value_owned(owned::indefinite_array(values), "9f0102030405060708ff");
}

#[test]
fn map_test_map_small() {
    let pairs = vec![
        owned::key_value(owned::u8(1), owned::u8(2)),
        owned::key_value(owned::u8(3), owned::u16(4)),
        owned::key_value(owned::u8(5), owned::u32(6)),
    ];
    assert_value_owned(owned::map(pairs), "a318011802180319000418051a00000006");
}

#[test]
fn indefinite_map_small() {
    let pairs = vec![
        owned::key_value(owned::u8(1), owned::u8(2)),
        owned::key_value(owned::u8(3), owned::u16(4)),
        owned::key_value(owned::u8(5), owned::u32(6)),
    ];
    assert_value_owned(
        owned::indefinite_map(pairs),
        "bf18011802180319000418051a00000006ff",
    );
}

#[test]
fn simple_test_simple() {
    let pairs = vec![
        owned::key_value(owned::text("F"), owned::false_value()),
        owned::key_value(owned::text("T"), owned::true_value()),
        owned::key_value(owned::text("N"), owned::null()),
        owned::key_value(owned::text("U"), owned::undefined()),
    ];
    assert_value_owned(owned::map(pairs), "a46146f46154f5614ef66155f7");
}

#[test]
fn tag_test_tag_simple() {
    let v = owned::usmall(0);
    let value = owned::tag(2, v);
    assert_value_owned(value, "c200")
}

#[test]
fn tag_test_self_describe() {
    let v = owned::usmall(0);
    let value = owned::self_describe(v);
    assert_value_owned(value, "d9d9f700")
}

#[test]
fn tag_test_tag_recursive() {
    let v = owned::usmall(0);
    let v1 = owned::tag(2, v);
    let value = owned::tag(55799, v1);
    assert_value_owned(value, "d9d9f7c200")
}

#[test]
fn text_small() {
    assert_value_owned(owned::text(""), "60");
    assert_value_owned(owned::text("a"), "6161");
    assert_value_owned(owned::text("IETF"), "6449455446");
}

#[test]
fn bytes_small() {
    assert_value_owned(owned::bytes(&[]), "40");
    assert_value_owned(owned::bytes(&[0x01, 0x02, 0x03, 0x04]), "4401020304");
}

#[test]
fn indefinite_text_chunks() {
    let v = owned::indefinite_text(&["Hello", " ", "World"]);
    assert_value_owned(v, "7f6548656c6c6f612065576f726c64ff");
}

#[test]
fn indefinite_bytes_chunks() {
    let a: &[u8] = &[0x01, 0x02];
    let b: &[u8] = &[0x03];
    assert_value_owned(owned::indefinite_bytes(&[a, b]), "5f4201024103ff");
}

#[test]
fn uint_boundaries() {
    assert_value_owned(owned::uint(0), "00");
    assert_value_owned(owned::uint(23), "17");
    assert_value_owned(owned::uint(24), "1818");
    assert_value_owned(owned::uint(255), "18ff");
    assert_value_owned(owned::uint(256), "190100");
    assert_value_owned(owned::uint(65535), "19ffff");
    assert_value_owned(owned::uint(65536), "1a00010000");
    assert_value_owned(owned::uint(4294967295), "1affffffff");
    assert_value_owned(owned::uint(4294967296), "1b0000000100000000");
    assert_value_owned(owned::uint(18446744073709551615), "1bffffffffffffffff");
}

#[test]
fn integer_boundaries() {
    assert_value_owned(owned::integer(-1), "20");
    assert_value_owned(owned::integer(-24), "37");
    assert_value_owned(owned::integer(-25), "3818");
    assert_value_owned(owned::integer(-256), "38ff");
    assert_value_owned(owned::integer(-257), "390100");
    assert_value_owned(owned::integer(-65536), "39ffff");
    assert_value_owned(owned::integer(-65537), "3a00010000");
    assert_value_owned(owned::integer(-4294967296), "3affffffff");
    assert_value_owned(owned::integer(-4294967297), "3b0000000100000000");
    assert_value_owned(owned::integer(-9223372036854775808), "3b7fffffffffffffff");
}

#[test]
fn floats_as_bits() {
    assert_value_owned(owned::half_float_from_u16(0x3c00), "f93c00");
    assert_value_owned(owned::single_float_from_u32(0x40900000), "fa40900000");
    assert_value_owned(owned::double_float_from_u64(0x401acccccccccccd), "fb401acccccccccccd");
}
