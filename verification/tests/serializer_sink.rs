use cbor_codec::owned;
use cbor_codec::write::{Serializer, Write, WriteTo};

fn hex_digit(c: u8) -> u8 {
    match c {
        b'0'..=b'9' => c - b'0',
        b'a'..=b'f' => c - b'a' + 10,
        b'A'..=b'F' => c - b'A' + 10,
        _ => panic!("bad hex digit"),
    }
}

fn hex(h: &str) -> Vec<u8> {
    let b = h.as_bytes();
    assert_eq!(b.len() % 2, 0);
    b.chunks(2).map(|p| (hex_digit(p[0]) << 4) | hex_digit(p[1])).collect()
}

#[test]
fn serialize_text() {
    let mut s = Serializer::new(Vec::new());
    s.text("Hello World").unwrap();
    assert_eq!(s.into_inner(), hex("6b48656c6c6f20576f726c64"));
}

#[test]
fn serialize_indefinite_text() {
    let mut s = Serializer::new(Vec::new());
    s.indefinite_text().unwrap();
    s.text("Hello").unwrap();
    s.text(" ").unwrap();
    s.text("World").unwrap();
    s.write_break().unwrap();
    assert_eq!(s.into_inner(), hex("7f6548656c6c6f612065576f726c64ff"));
}

#[test]
fn serialize_raw_heads() {
    let mut s = Serializer::new(Vec::new());
    s.raw_array(2).unwrap();
    s.value(&owned::usmall(1)).unwrap();
    s.value(&owned::usmall(2)).unwrap();
    assert_eq!(s.into_inner(), hex("820102"));

    let mut s = Serializer::new(Vec::new());
    s.raw_map(1).unwrap();
    s.value(&owned::text("a")).unwrap();
    s.value(&owned::usmall(1)).unwrap();
    assert_eq!(s.into_inner(), hex("a1616101"));

    let mut s = Serializer::new(Vec::new());
    s.raw_tag(55799).unwrap();
    s.value(&owned::usmall(0)).unwrap();
    assert_eq!(s.into_inner(), hex("d9d9f700"));
}

#[test]
fn serialize_indefinite_containers() {
    let mut s = Serializer::new(Vec::new());
    s.indefinite_array().unwrap();
    s.value(&owned::usmall(1)).unwrap();
    s.write_break().unwrap();
    assert_eq!(s.into_inner(), hex("9f01ff"));

    let mut s = Serializer::new(Vec::new());
    s.indefinite_map().unwrap();
    s.value(&owned::usmall(1)).unwrap();
    s.value(&owned::usmall(2)).unwrap();
    s.write_break().unwrap();
    assert_eq!(s.into_inner(), hex("bf0102ff"));

    let mut s = Serializer::new(Vec::new());
    s.indefinite_bytes().unwrap();
    s.bytes(&[0x01]).unwrap();
    s.write_break().unwrap();
    assert_eq!(s.into_inner(), hex("5f4101ff"));
}

#[test]
fn write_to_sink() {
    let v = owned::array(vec![owned::usmall(1), owned::usmall(2), owned::usmall(3)]);
    let mut sink: Vec<u8> = Vec::new();
    let n = v.write_to(&mut sink).unwrap();
    assert_eq!(n, 4);
    assert_eq!(sink, hex("83010203"));
    assert_eq!(WriteTo::len(&v), 4);

    let head = cbor_codec::major_type::MajorType::Text(cbor_codec::minor_type::MinorType::SameByte(
        2,
    ));
    let mut sink2: Vec<u8> = Vec::new();
    head.write_to(&mut sink2).unwrap();
    assert_eq!(sink2, hex("62"));
}
