use vstd::prelude::*;

use crate::error::Error;
use crate::major_type::{head_byte, head_bytes};
use crate::minor_type::{
    be16_bytes, be32_bytes, be64_bytes, minor_ai, minor_arg_bytes, minor_numeric, minor_value,
    MinorType,
};
use crate::owned::{
    chunks_bytes, chunks_payload, height, items_bytes, items_height, pairs_bytes, pairs_height,
    wf, wf_chunks, wf_items, wf_pairs, wire_bytes, OwnedValue,
};
use crate::utf8check::{is_valid_utf8, is_valid_utf8_vec};
use vstd::slice::{slice_index_get, slice_subrange, slice_to_vec};
use vstd::utf8::valid_utf8;

verus! {

/// A 16-bit value reassembled from two big-endian bytes.
pub open spec fn be16_of(b1: u8, b2: u8) -> u16 {
    (b1 as int * 256 + b2 as int) as u16
}

/// A 32-bit value reassembled from four big-endian bytes.
pub open spec fn be32_of(b1: u8, b2: u8, b3: u8, b4: u8) -> u32 {
    (be16_of(b1, b2) as int * 0x10000 + be16_of(b3, b4) as int) as u32
}

/// A 64-bit value reassembled from eight big-endian bytes.
pub open spec fn be64_of(
    b1: u8,
    b2: u8,
    b3: u8,
    b4: u8,
    b5: u8,
    b6: u8,
    b7: u8,
    b8: u8,
) -> u64 {
    (be32_of(b1, b2, b3, b4) as int * 0x100000000 + be32_of(b5, b6, b7, b8) as int) as u64
}

/// Splitting a 16-bit value into big-endian bytes and reassembling them
/// gives the value back.
proof fn lemma_be16_round(x: u16)
    ensures
        be16_of(be16_bytes(x)[0], be16_bytes(x)[1]) == x,
{
}

/// Splitting a 32-bit value into big-endian bytes and reassembling them
/// gives the value back.
proof fn lemma_be32_round(x: u32)
    ensures
        be32_of(be32_bytes(x)[0], be32_bytes(x)[1], be32_bytes(x)[2], be32_bytes(x)[3]) == x,
{
    let hi = (x / 0x10000) as u16;
    let lo = (x % 0x10000) as u16;
    lemma_be16_round(hi);
    lemma_be16_round(lo);
    assert(be32_bytes(x)[0] == be16_bytes(hi)[0]);
    assert(be32_bytes(x)[1] == be16_bytes(hi)[1]);
    assert(be32_bytes(x)[2] == be16_bytes(lo)[0]);
    assert(be32_bytes(x)[3] == be16_bytes(lo)[1]);
}

/// Splitting a 64-bit value into big-endian bytes and reassembling them
/// gives the value back.
proof fn lemma_be64_round(x: u64)
    ensures
        be64_of(
            be64_bytes(x)[0],
            be64_bytes(x)[1],
            be64_bytes(x)[2],
            be64_bytes(x)[3],
            be64_bytes(x)[4],
            be64_bytes(x)[5],
            be64_bytes(x)[6],
            be64_bytes(x)[7],
        ) == x,
{
    let hi = (x / 0x100000000) as u32;
    let lo = (x % 0x100000000) as u32;
    lemma_be32_round(hi);
    lemma_be32_round(lo);
    assert(be64_bytes(x)[0] == be32_bytes(hi)[0]);
    assert(be64_bytes(x)[1] == be32_bytes(hi)[1]);
    assert(be64_bytes(x)[2] == be32_bytes(hi)[2]);
    assert(be64_bytes(x)[3] == be32_bytes(hi)[3]);
    assert(be64_bytes(x)[4] == be32_bytes(lo)[0]);
    assert(be64_bytes(x)[5] == be32_bytes(lo)[1]);
    assert(be64_bytes(x)[6] == be32_bytes(lo)[2]);
    assert(be64_bytes(x)[7] == be32_bytes(lo)[3]);
}

/// What reading one head at `pos` yields: the major type, the argument
/// width with its payload, and the position just past the head. Reserved
/// additional-information values fail, as does a source that ends inside
/// the head.
pub open spec fn sp_head(b: Seq<u8>, pos: int) -> Result<(u8, MinorType, int), Error> {
    if pos < 0 || pos >= b.len() {
        Err(Error::UnexpectedEof)
    } else {
        let hb = b[pos];
        let major = hb / 32;
        let low = hb % 32;
        if low < 24 {
            Ok((major, MinorType::SameByte(low), pos + 1))
        } else if low == 24 {
            if pos + 2 <= b.len() {
                Ok((major, MinorType::OneByte(b[pos + 1]), pos + 2))
            } else {
                Err(Error::UnexpectedEof)
            }
        } else if low == 25 {
            if pos + 3 <= b.len() {
                Ok((major, MinorType::TwoBytes(be16_of(b[pos + 1], b[pos + 2])), pos + 3))
            } else {
                Err(Error::UnexpectedEof)
            }
        } else if low == 26 {
            if pos + 5 <= b.len() {
                Ok(
                    (
                        major,
                        MinorType::FourBytes(
                            be32_of(b[pos + 1], b[pos + 2], b[pos + 3], b[pos + 4]),
                        ),
                        pos + 5,
                    ),
                )
            } else {
                Err(Error::UnexpectedEof)
            }
        } else if low == 27 {
            if pos + 9 <= b.len() {
                Ok(
                    (
                        major,
                        MinorType::EightBytes(
                            be64_of(
                                b[pos + 1],
                                b[pos + 2],
                                b[pos + 3],
                                b[pos + 4],
                                b[pos + 5],
                                b[pos + 6],
                                b[pos + 7],
                                b[pos + 8],
                            ),
                        ),
                        pos + 9,
                    ),
                )
            } else {
                Err(Error::UnexpectedEof)
            }
        } else if low == 31 {
            Ok((major, MinorType::Indefinite, pos + 1))
        } else {
            Err(Error::MalformedHead)
        }
    }
}

/// Reads one head from the slice.
pub fn parse_head(b: &[u8], pos: usize) -> (r: Result<(u8, MinorType, usize), Error>)
    ensures
        (r matches Ok((mj, m, p)) ==> sp_head(b@, pos as int) == Ok::<(u8, MinorType, int), Error>(
            (mj, m, p as int),
        ) && pos < p <= b@.len() && mj <= 7),
        (r matches Err(e) ==> sp_head(b@, pos as int) == Err::<(u8, MinorType, int), Error>(e)),
{
    let n = b.len();
    if pos >= n {
        return Err(Error::UnexpectedEof);
    }
    let hb = *slice_index_get(b, pos);
    let major = hb / 32;
    let low = hb % 32;
    if low < 24 {
        Ok((major, MinorType::SameByte(low), pos + 1))
    } else if low == 24 {
        if n - pos >= 2 {
            let b1 = *slice_index_get(b, pos + 1);
            Ok((major, MinorType::OneByte(b1), pos + 2))
        } else {
            Err(Error::UnexpectedEof)
        }
    } else if low == 25 {
        if n - pos >= 3 {
            let b1 = *slice_index_get(b, pos + 1);
            let b2 = *slice_index_get(b, pos + 2);
            let v: u16 = (b1 as u16) * 256 + (b2 as u16);
            Ok((major, MinorType::TwoBytes(v), pos + 3))
        } else {
            Err(Error::UnexpectedEof)
        }
    } else if low == 26 {
        if n - pos >= 5 {
            let b1 = *slice_index_get(b, pos + 1);
            let b2 = *slice_index_get(b, pos + 2);
            let b3 = *slice_index_get(b, pos + 3);
            let b4 = *slice_index_get(b, pos + 4);
            let hi: u16 = (b1 as u16) * 256 + (b2 as u16);
            let lo: u16 = (b3 as u16) * 256 + (b4 as u16);
            let v: u32 = (hi as u32) * 0x10000 + (lo as u32);
            Ok((major, MinorType::FourBytes(v), pos + 5))
        } else {
            Err(Error::UnexpectedEof)
        }
    } else if low == 27 {
        if n - pos >= 9 {
            let b1 = *slice_index_get(b, pos + 1);
            let b2 = *slice_index_get(b, pos + 2);
            let b3 = *slice_index_get(b, pos + 3);
            let b4 = *slice_index_get(b, pos + 4);
            let b5 = *slice_index_get(b, pos + 5);
            let b6 = *slice_index_get(b, pos + 6);
            let b7 = *slice_index_get(b, pos + 7);
            let b8 = *slice_index_get(b, pos + 8);
            let h1: u16 = (b1 as u16) * 256 + (b2 as u16);
            let h2: u16 = (b3 as u16) * 256 + (b4 as u16);
            let h3: u16 = (b5 as u16) * 256 + (b6 as u16);
            let h4: u16 = (b7 as u16) * 256 + (b8 as u16);
            let hi: u32 = (h1 as u32) * 0x10000 + (h2 as u32);
            let lo: u32 = (h3 as u32) * 0x10000 + (h4 as u32);
            let v: u64 = (hi as u64) * 0x100000000 + (lo as u64);
            Ok((major, MinorType::EightBytes(v), pos + 9))
        } else {
            Err(Error::UnexpectedEof)
        }
    } else if low == 31 {
        Ok((major, MinorType::Indefinite, pos + 1))
    } else {
        Err(Error::MalformedHead)
    }
}

/// The major type a wire item announces in its head.
pub open spec fn wire_major(w: OwnedValue) -> u8 {
    match w {
        OwnedValue::Unsigned(_) => 0,
        OwnedValue::Negative(_) => 1,
        OwnedValue::Bytes(_, _) => 2,
        OwnedValue::IndefiniteBytes(_) => 2,
        OwnedValue::Text(_, _) => 3,
        OwnedValue::IndefiniteText(_) => 3,
        OwnedValue::Array(_, _) => 4,
        OwnedValue::IndefiniteArray(_) => 4,
        OwnedValue::Mapping(_, _) => 5,
        OwnedValue::IndefiniteMapping(_) => 5,
        OwnedValue::Tag(_, _) => 6,
        _ => 7,
    }
}

/// The argument width a wire item announces in its head.
pub open spec fn wire_minor(w: OwnedValue) -> MinorType {
    match w {
        OwnedValue::Unsigned(m) => m,
        OwnedValue::Negative(m) => m,
        OwnedValue::Bytes(m, _) => m,
        OwnedValue::Text(m, _) => m,
        OwnedValue::Array(m, _) => m,
        OwnedValue::Mapping(m, _) => m,
        OwnedValue::Tag(m, _) => m,
        OwnedValue::IndefiniteBytes(_) => MinorType::Indefinite,
        OwnedValue::IndefiniteText(_) => MinorType::Indefinite,
        OwnedValue::IndefiniteArray(_) => MinorType::Indefinite,
        OwnedValue::IndefiniteMapping(_) => MinorType::Indefinite,
        OwnedValue::False => MinorType::SameByte(20),
        OwnedValue::True => MinorType::SameByte(21),
        OwnedValue::Null => MinorType::SameByte(22),
        OwnedValue::Undefined => MinorType::SameByte(23),
        OwnedValue::HalfFloat(x) => MinorType::TwoBytes(x),
        OwnedValue::SingleFloat(x) => MinorType::FourBytes(x),
        OwnedValue::DoubleFloat(x) => MinorType::EightBytes(x),
        OwnedValue::Simple(d) => if d >= 32 {
            MinorType::OneByte(d)
        } else {
            MinorType::SameByte(d)
        },
    }
}

/// What follows the head inside a wire item's bytes.
pub open spec fn wire_payload(w: OwnedValue) -> Seq<u8> {
    match w {
        OwnedValue::Bytes(_, b) => b@,
        OwnedValue::Text(_, b) => b@,
        OwnedValue::Array(_, els) => items_bytes(els@),
        OwnedValue::Mapping(_, ps) => pairs_bytes(ps@),
        OwnedValue::IndefiniteBytes(cs) => chunks_bytes(2, cs@) + seq![0xffu8],
        OwnedValue::IndefiniteText(cs) => chunks_bytes(3, cs@) + seq![0xffu8],
        OwnedValue::IndefiniteArray(els) => items_bytes(els@) + seq![0xffu8],
        OwnedValue::IndefiniteMapping(ps) => pairs_bytes(ps@) + seq![0xffu8],
        OwnedValue::Tag(_, inner) => wire_bytes(*inner),
        _ => Seq::<u8>::empty(),
    }
}

/// Every wire item is its head followed by its payload.
pub proof fn lemma_wire_decompose(w: OwnedValue)
    ensures
        wire_bytes(w) == head_bytes(wire_major(w), wire_minor(w)) + wire_payload(w),
{
    match w {
        OwnedValue::IndefiniteBytes(cs) => {
            assert(head_bytes(2, MinorType::Indefinite) =~= seq![0x5fu8]);
            assert(wire_bytes(w) =~= head_bytes(2, MinorType::Indefinite) + wire_payload(w));
        }
        OwnedValue::IndefiniteText(cs) => {
            assert(head_bytes(3, MinorType::Indefinite) =~= seq![0x7fu8]);
            assert(wire_bytes(w) =~= head_bytes(3, MinorType::Indefinite) + wire_payload(w));
        }
        OwnedValue::IndefiniteArray(els) => {
            assert(head_bytes(4, MinorType::Indefinite) =~= seq![0x9fu8]);
            assert(wire_bytes(w) =~= head_bytes(4, MinorType::Indefinite) + wire_payload(w));
        }
        OwnedValue::IndefiniteMapping(ps) => {
            assert(head_bytes(5, MinorType::Indefinite) =~= seq![0xbfu8]);
            assert(wire_bytes(w) =~= head_bytes(5, MinorType::Indefinite) + wire_payload(w));
        }
        OwnedValue::False => {
            assert(head_bytes(7, MinorType::SameByte(20)) =~= seq![0xf4u8]);
            assert(wire_bytes(w) =~= head_bytes(7, MinorType::SameByte(20)) + wire_payload(w));
        }
        OwnedValue::True => {
            assert(head_bytes(7, MinorType::SameByte(21)) =~= seq![0xf5u8]);
            assert(wire_bytes(w) =~= head_bytes(7, MinorType::SameByte(21)) + wire_payload(w));
        }
        OwnedValue::Null => {
            assert(head_bytes(7, MinorType::SameByte(22)) =~= seq![0xf6u8]);
            assert(wire_bytes(w) =~= head_bytes(7, MinorType::SameByte(22)) + wire_payload(w));
        }
        OwnedValue::Undefined => {
            assert(head_bytes(7, MinorType::SameByte(23)) =~= seq![0xf7u8]);
            assert(wire_bytes(w) =~= head_bytes(7, MinorType::SameByte(23)) + wire_payload(w));
        }
        OwnedValue::HalfFloat(x) => {
            assert(wire_bytes(w) =~= head_bytes(7, MinorType::TwoBytes(x)) + wire_payload(w));
        }
        OwnedValue::SingleFloat(x) => {
            assert(wire_bytes(w) =~= head_bytes(7, MinorType::FourBytes(x)) + wire_payload(w));
        }
        OwnedValue::DoubleFloat(x) => {
            assert(wire_bytes(w) =~= head_bytes(7, MinorType::EightBytes(x)) + wire_payload(w));
        }
        OwnedValue::Simple(d) => {
            if d >= 32 {
                assert(head_bytes(7, MinorType::OneByte(d)) =~= seq![0xf8u8, d]);
                assert(wire_bytes(w) =~= head_bytes(7, MinorType::OneByte(d)) + wire_payload(w));
            } else {
                assert(head_bytes(7, MinorType::SameByte(d)) =~= seq![head_byte(7, d)]);
                assert(wire_bytes(w) =~= head_bytes(7, MinorType::SameByte(d)) + wire_payload(w));
            }
        }
        _ => {
            assert(wire_bytes(w) =~= head_bytes(wire_major(w), wire_minor(w)) + wire_payload(w));
        }
    }
}

/// An item stands at `pos` in `b`: it is well-formed and its exact bytes
/// are there.
pub open spec fn match_at(b: Seq<u8>, pos: int, w: OwnedValue) -> bool {
    &&& wf(w)
    &&& 0 <= pos
    &&& pos + wire_bytes(w).len() <= b.len()
    &&& b.subrange(pos, pos + wire_bytes(w).len() as int) == wire_bytes(w)
}

/// Reading a head out of head bytes laid down at `pos` gives back the
/// major type and width they were built from.
#[verifier::rlimit(60)]
pub proof fn lemma_sp_head_of_head_bytes(b: Seq<u8>, pos: int, major: u8, m: MinorType)
    requires
        minor_numeric(m) || m is Indefinite,
        major <= 7,
        0 <= pos,
        pos + head_bytes(major, m).len() <= b.len(),
        b.subrange(pos, pos + head_bytes(major, m).len() as int) == head_bytes(major, m),
    ensures
        sp_head(b, pos) == Ok::<(u8, MinorType, int), Error>(
            (major, m, pos + head_bytes(major, m).len()),
        ),
{
    let hb = head_bytes(major, m);
    let ai = minor_ai(m);
    assert(ai < 32);
    assert(hb[0] == head_byte(major, ai));
    assert(b.subrange(pos, pos + hb.len() as int)[0] == b[pos]);
    assert(b[pos] == head_byte(major, ai));
    assert(head_byte(major, ai) == major * 32 + ai);
    assert(b[pos] / 32 == major);
    assert(b[pos] % 32 == ai);
    assert forall|k: int| 0 <= k < hb.len() implies b[pos + k] == hb[k] by {
        assert(b.subrange(pos, pos + hb.len() as int)[k] == b[pos + k]);
    }
    match m {
        MinorType::SameByte(x) => {
        }
        MinorType::OneByte(x) => {
            assert(hb[1] == x);
        }
        MinorType::TwoBytes(x) => {
            assert(hb[1] == be16_bytes(x)[0]);
            assert(hb[2] == be16_bytes(x)[1]);
            lemma_be16_round(x);
        }
        MinorType::FourBytes(x) => {
            assert(hb[1] == be32_bytes(x)[0]);
            assert(hb[2] == be32_bytes(x)[1]);
            assert(hb[3] == be32_bytes(x)[2]);
            assert(hb[4] == be32_bytes(x)[3]);
            lemma_be32_round(x);
        }
        MinorType::EightBytes(x) => {
            assert(hb[1] == be64_bytes(x)[0]);
            assert(hb[2] == be64_bytes(x)[1]);
            assert(hb[3] == be64_bytes(x)[2]);
            assert(hb[4] == be64_bytes(x)[3]);
            assert(hb[5] == be64_bytes(x)[4]);
            assert(hb[6] == be64_bytes(x)[5]);
            assert(hb[7] == be64_bytes(x)[6]);
            assert(hb[8] == be64_bytes(x)[7]);
            lemma_be64_round(x);
        }
        MinorType::Indefinite => {
        }
        MinorType::Reserved(_) => {
        }
    }
}

/// Where a well-formed item stands, reading a head gives exactly the
/// head the item announces.
pub proof fn lemma_wire_shape(b: Seq<u8>, pos: int, w: OwnedValue)
    requires
        match_at(b, pos, w),
    ensures
        sp_head(b, pos) == Ok::<(u8, MinorType, int), Error>(
            (
                wire_major(w),
                wire_minor(w),
                pos + 1 + minor_arg_bytes(wire_minor(w)).len(),
            ),
        ),
        wire_bytes(w).len() == 1 + minor_arg_bytes(wire_minor(w)).len() + wire_payload(w).len(),
        b.subrange(
            pos + 1 + minor_arg_bytes(wire_minor(w)).len(),
            pos + wire_bytes(w).len() as int,
        ) == wire_payload(w),
        minor_numeric(wire_minor(w)) || wire_minor(w) is Indefinite,
{
    lemma_wire_decompose(w);
    let hd = head_bytes(wire_major(w), wire_minor(w));
    let hlen = hd.len() as int;
    let wlen = wire_bytes(w).len() as int;
    assert(minor_numeric(wire_minor(w)) || wire_minor(w) is Indefinite) by {
        match w {
            OwnedValue::Simple(d) => {
                assert(wf(w) ==> (d <= 19 || d >= 32));
            }
            _ => {}
        }
    }
    assert(b.subrange(pos, pos + hlen) =~= b.subrange(pos, pos + wlen).subrange(0, hlen));
    assert(b.subrange(pos, pos + wlen).subrange(0, hlen) =~= hd);
    lemma_sp_head_of_head_bytes(b, pos, wire_major(w), wire_minor(w));
    assert(b.subrange(pos + hlen, pos + wlen) =~= b.subrange(pos, pos + wlen).subrange(
        hlen,
        wlen,
    ));
    assert(b.subrange(pos, pos + wlen).subrange(hlen, wlen) =~= wire_payload(w));
}


/// Two wire items hold the same content: the same shapes, widths and
/// bytes, paying no attention to which buffers carry them.
pub open spec fn same_item(a: OwnedValue, b: OwnedValue) -> bool
    decreases a,
{
    match (a, b) {
        (OwnedValue::Unsigned(m1), OwnedValue::Unsigned(m2)) => m1 == m2,
        (OwnedValue::Negative(m1), OwnedValue::Negative(m2)) => m1 == m2,
        (OwnedValue::Bytes(m1, b1), OwnedValue::Bytes(m2, b2)) => m1 == m2 && b1@ == b2@,
        (OwnedValue::Text(m1, b1), OwnedValue::Text(m2, b2)) => m1 == m2 && b1@ == b2@,
        (OwnedValue::Array(m1, e1), OwnedValue::Array(m2, e2)) => m1 == m2 && same_items(
            e1@,
            e2@,
        ),
        (OwnedValue::Mapping(m1, p1), OwnedValue::Mapping(m2, p2)) => m1 == m2 && same_pairs(
            p1@,
            p2@,
        ),
        (OwnedValue::IndefiniteBytes(c1), OwnedValue::IndefiniteBytes(c2)) => same_chunks(
            c1@,
            c2@,
        ),
        (OwnedValue::IndefiniteText(c1), OwnedValue::IndefiniteText(c2)) => same_chunks(c1@, c2@),
        (OwnedValue::IndefiniteArray(e1), OwnedValue::IndefiniteArray(e2)) => same_items(e1@, e2@),
        (OwnedValue::IndefiniteMapping(p1), OwnedValue::IndefiniteMapping(p2)) => same_pairs(
            p1@,
            p2@,
        ),
        (OwnedValue::Tag(m1, i1), OwnedValue::Tag(m2, i2)) => m1 == m2 && same_item(*i1, *i2),
        (OwnedValue::False, OwnedValue::False) => true,
        (OwnedValue::True, OwnedValue::True) => true,
        (OwnedValue::Null, OwnedValue::Null) => true,
        (OwnedValue::Undefined, OwnedValue::Undefined) => true,
        (OwnedValue::HalfFloat(x1), OwnedValue::HalfFloat(x2)) => x1 == x2,
        (OwnedValue::SingleFloat(x1), OwnedValue::SingleFloat(x2)) => x1 == x2,
        (OwnedValue::DoubleFloat(x1), OwnedValue::DoubleFloat(x2)) => x1 == x2,
        (OwnedValue::Simple(d1), OwnedValue::Simple(d2)) => d1 == d2,
        _ => false,
    }
}

/// Two runs of items hold the same content, item by item.
pub open spec fn same_items(x: Seq<OwnedValue>, y: Seq<OwnedValue>) -> bool
    decreases x,
{
    if x.len() != y.len() {
        false
    } else if x.len() == 0 {
        true
    } else {
        same_item(x[0], y[0]) && same_items(x.drop_first(), y.drop_first())
    }
}

/// Two runs of pairs hold the same content, pair by pair.
pub open spec fn same_pairs(
    x: Seq<(OwnedValue, OwnedValue)>,
    y: Seq<(OwnedValue, OwnedValue)>,
) -> bool
    decreases x,
{
    if x.len() != y.len() {
        false
    } else if x.len() == 0 {
        true
    } else {
        same_item(x[0].0, y[0].0) && same_item(x[0].1, y[0].1) && same_pairs(
            x.drop_first(),
            y.drop_first(),
        )
    }
}

/// Two runs of chunks hold the same widths and bytes, chunk by chunk.
pub open spec fn same_chunks(x: Seq<(MinorType, Vec<u8>)>, y: Seq<(MinorType, Vec<u8>)>) -> bool
    decreases x,
{
    if x.len() != y.len() {
        false
    } else if x.len() == 0 {
        true
    } else {
        x[0].0 == y[0].0 && x[0].1@ == y[0].1@ && same_chunks(x.drop_first(), y.drop_first())
    }
}

/// Chunks with the same content assemble to the same payload.
pub proof fn lemma_same_chunks_payload(x: Seq<(MinorType, Vec<u8>)>, y: Seq<(MinorType, Vec<u8>)>)
    requires
        same_chunks(x, y),
    ensures
        chunks_payload(x) == chunks_payload(y),
    decreases x,
{
    if x.len() > 0 {
        lemma_same_chunks_payload(x.drop_first(), y.drop_first());
    }
}

/// A run of well-formed items stands at `pos` in `b`.
pub open spec fn items_match_at(b: Seq<u8>, pos: int, ws: Seq<OwnedValue>) -> bool {
    &&& wf_items(ws)
    &&& 0 <= pos
    &&& pos + items_bytes(ws).len() <= b.len()
    &&& b.subrange(pos, pos + items_bytes(ws).len() as int) == items_bytes(ws)
}

/// A run of well-formed pairs stands at `pos` in `b`.
pub open spec fn pairs_match_at(b: Seq<u8>, pos: int, ps: Seq<(OwnedValue, OwnedValue)>) -> bool {
    &&& wf_pairs(ps)
    &&& 0 <= pos
    &&& pos + pairs_bytes(ps).len() <= b.len()
    &&& b.subrange(pos, pos + pairs_bytes(ps).len() as int) == pairs_bytes(ps)
}

/// A run of well-formed chunks stands at `pos` in `b`, with the break
/// that ends the indefinite string right behind it.
pub open spec fn chunks_match_at(
    b: Seq<u8>,
    pos: int,
    major: u8,
    cs: Seq<(MinorType, Vec<u8>)>,
) -> bool {
    &&& wf_chunks(cs)
    &&& 0 <= pos
    &&& pos + chunks_bytes(major, cs).len() + 1 <= b.len()
    &&& b.subrange(pos, pos + chunks_bytes(major, cs).len() as int) == chunks_bytes(major, cs)
    &&& b[pos + chunks_bytes(major, cs).len() as int] == 0xff
}

/// The first item of a matching run stands at `pos`; the rest stand just
/// behind it.
pub proof fn lemma_items_split(b: Seq<u8>, pos: int, ws: Seq<OwnedValue>)
    requires
        ws.len() > 0,
        items_match_at(b, pos, ws),
    ensures
        match_at(b, pos, ws[0]),
        items_match_at(b, pos + wire_bytes(ws[0]).len(), ws.drop_first()),
        items_bytes(ws).len() == wire_bytes(ws[0]).len() + items_bytes(ws.drop_first()).len(),
        items_height(ws) >= height(ws[0]),
        items_height(ws) >= items_height(ws.drop_first()),
{
    let w0 = ws[0];
    let rest = ws.drop_first();
    let l0 = wire_bytes(w0).len() as int;
    let lr = items_bytes(rest).len() as int;
    assert(items_bytes(ws) == wire_bytes(w0) + items_bytes(rest));
    assert(b.subrange(pos, pos + l0) =~= b.subrange(pos, pos + l0 + lr).subrange(0, l0));
    assert(b.subrange(pos, pos + l0 + lr).subrange(0, l0) =~= wire_bytes(w0));
    assert(b.subrange(pos + l0, pos + l0 + lr) =~= b.subrange(pos, pos + l0 + lr).subrange(
        l0,
        l0 + lr,
    ));
    assert(b.subrange(pos, pos + l0 + lr).subrange(l0, l0 + lr) =~= items_bytes(rest));
}

/// The first pair of a matching run stands at `pos`, its key before its
/// value; the rest stand just behind them.
pub proof fn lemma_pairs_split(b: Seq<u8>, pos: int, ps: Seq<(OwnedValue, OwnedValue)>)
    requires
        ps.len() > 0,
        pairs_match_at(b, pos, ps),
    ensures
        match_at(b, pos, ps[0].0),
        match_at(b, pos + wire_bytes(ps[0].0).len(), ps[0].1),
        pairs_match_at(
            b,
            pos + wire_bytes(ps[0].0).len() + wire_bytes(ps[0].1).len(),
            ps.drop_first(),
        ),
        pairs_bytes(ps).len() == wire_bytes(ps[0].0).len() + wire_bytes(ps[0].1).len()
            + pairs_bytes(ps.drop_first()).len(),
        pairs_height(ps) >= height(ps[0].0),
        pairs_height(ps) >= height(ps[0].1),
        pairs_height(ps) >= pairs_height(ps.drop_first()),
{
    let k = ps[0].0;
    let v = ps[0].1;
    let rest = ps.drop_first();
    let lk = wire_bytes(k).len() as int;
    let lv = wire_bytes(v).len() as int;
    let lr = pairs_bytes(rest).len() as int;
    assert(pairs_bytes(ps) == wire_bytes(k) + wire_bytes(v) + pairs_bytes(rest));
    let whole = b.subrange(pos, pos + lk + lv + lr);
    assert(b.subrange(pos, pos + lk) =~= whole.subrange(0, lk));
    assert(whole.subrange(0, lk) =~= wire_bytes(k));
    assert(b.subrange(pos + lk, pos + lk + lv) =~= whole.subrange(lk, lk + lv));
    assert(whole.subrange(lk, lk + lv) =~= wire_bytes(v));
    assert(b.subrange(pos + lk + lv, pos + lk + lv + lr) =~= whole.subrange(lk + lv, lk + lv + lr));
    assert(whole.subrange(lk + lv, lk + lv + lr) =~= pairs_bytes(rest));
}

/// The first chunk of a matching run stands at `pos`: its head, then its
/// bytes; the rest stand just behind it, still ended by the break.
pub proof fn lemma_chunks_split(b: Seq<u8>, pos: int, major: u8, cs: Seq<(MinorType, Vec<u8>)>)
    requires
        cs.len() > 0,
        major <= 7,
        chunks_match_at(b, pos, major, cs),
    ensures
        sp_head(b, pos) == Ok::<(u8, MinorType, int), Error>(
            (major, cs[0].0, pos + head_bytes(major, cs[0].0).len()),
        ),
        minor_numeric(cs[0].0),
        minor_value(cs[0].0) == cs[0].1@.len(),
        b.subrange(
            pos + head_bytes(major, cs[0].0).len(),
            pos + head_bytes(major, cs[0].0).len() + cs[0].1@.len(),
        ) == cs[0].1@,
        chunks_match_at(
            b,
            pos + head_bytes(major, cs[0].0).len() + cs[0].1@.len(),
            major,
            cs.drop_first(),
        ),
        chunks_bytes(major, cs).len() == head_bytes(major, cs[0].0).len() + cs[0].1@.len()
            + chunks_bytes(major, cs.drop_first()).len(),
{
    let m0 = cs[0].0;
    let c0 = cs[0].1@;
    let rest = cs.drop_first();
    let lh = head_bytes(major, m0).len() as int;
    let lc = c0.len() as int;
    let lr = chunks_bytes(major, rest).len() as int;
    assert(chunks_bytes(major, cs) == head_bytes(major, m0) + c0 + chunks_bytes(major, rest));
    let whole = b.subrange(pos, pos + lh + lc + lr);
    assert(b.subrange(pos, pos + lh) =~= whole.subrange(0, lh));
    assert(whole.subrange(0, lh) =~= head_bytes(major, m0));
    lemma_sp_head_of_head_bytes(b, pos, major, m0);
    assert(b.subrange(pos + lh, pos + lh + lc) =~= whole.subrange(lh, lh + lc));
    assert(whole.subrange(lh, lh + lc) =~= c0);
    assert(b.subrange(pos + lh + lc, pos + lh + lc + lr) =~= whole.subrange(lh + lc, lh + lc + lr));
    assert(whole.subrange(lh + lc, lh + lc + lr) =~= chunks_bytes(major, rest));
}

/// The bytes a successful head read walked over are exactly the head
/// bytes of what it returned.
pub proof fn lemma_sp_head_to_bytes(b: Seq<u8>, pos: int, major: u8, m: MinorType, p: int)
    requires
        sp_head(b, pos) == Ok::<(u8, MinorType, int), Error>((major, m, p)),
    ensures
        minor_numeric(m) || m is Indefinite,
        major <= 7,
        p == pos + head_bytes(major, m).len(),
        0 <= pos < p <= b.len(),
        b.subrange(pos, p) == head_bytes(major, m),
{
    let hb = b[pos];
    let low = hb % 32;
    assert(major == hb / 32);
    assert(major <= 7);
    assert(hb == major * 32 + low);
    if low < 24 {
        assert(b.subrange(pos, p) =~= head_bytes(major, m));
    } else if low == 24 {
        assert(b.subrange(pos, p) =~= head_bytes(major, m));
    } else if low == 25 {
        let x = be16_of(b[pos + 1], b[pos + 2]);
        assert(be16_bytes(x)[0] == b[pos + 1] && be16_bytes(x)[1] == b[pos + 2]);
        assert(b.subrange(pos, p) =~= head_bytes(major, m));
    } else if low == 26 {
        let x = be32_of(b[pos + 1], b[pos + 2], b[pos + 3], b[pos + 4]);
        let h = be16_of(b[pos + 1], b[pos + 2]);
        let l = be16_of(b[pos + 3], b[pos + 4]);
        assert(x == h as int * 0x10000 + l as int);
        assert(x as int / 0x10000 == h && x as int % 0x10000 == l);
        assert(be32_bytes(x) == be16_bytes(h) + be16_bytes(l));
        assert(be32_bytes(x)[0] == b[pos + 1] && be32_bytes(x)[1] == b[pos + 2] && be32_bytes(x)[2]
            == b[pos + 3] && be32_bytes(x)[3] == b[pos + 4]);
        assert(b.subrange(pos, p) =~= head_bytes(major, m));
    } else if low == 27 {
        let h = be32_of(b[pos + 1], b[pos + 2], b[pos + 3], b[pos + 4]);
        let l = be32_of(b[pos + 5], b[pos + 6], b[pos + 7], b[pos + 8]);
        let x = be64_of(
            b[pos + 1],
            b[pos + 2],
            b[pos + 3],
            b[pos + 4],
            b[pos + 5],
            b[pos + 6],
            b[pos + 7],
            b[pos + 8],
        );
        assert(x == h as int * 0x100000000 + l as int);
        assert(x as int / 0x100000000 == h && x as int % 0x100000000 == l);
        assert(be64_bytes(x) == be32_bytes(h) + be32_bytes(l));
        let h1 = be16_of(b[pos + 1], b[pos + 2]);
        let h2 = be16_of(b[pos + 3], b[pos + 4]);
        let h3 = be16_of(b[pos + 5], b[pos + 6]);
        let h4 = be16_of(b[pos + 7], b[pos + 8]);
        assert(h as int / 0x10000 == h1 && h as int % 0x10000 == h2);
        assert(l as int / 0x10000 == h3 && l as int % 0x10000 == h4);
        assert(be32_bytes(h) == be16_bytes(h1) + be16_bytes(h2));
        assert(be32_bytes(l) == be16_bytes(h3) + be16_bytes(h4));
        assert(be64_bytes(x)[0] == b[pos + 1] && be64_bytes(x)[1] == b[pos + 2]);
        assert(be64_bytes(x)[2] == b[pos + 3] && be64_bytes(x)[3] == b[pos + 4]);
        assert(be64_bytes(x)[4] == b[pos + 5] && be64_bytes(x)[5] == b[pos + 6]);
        assert(be64_bytes(x)[6] == b[pos + 7] && be64_bytes(x)[7] == b[pos + 8]);
        assert(b.subrange(pos, p) =~= head_bytes(major, m));
    } else {
        assert(low == 31);
        assert(b.subrange(pos, p) =~= head_bytes(major, m));
    }
}


/// Only arrays, maps and tags nest: an item of positive height
/// announces major type 4, 5 or 6.
pub proof fn lemma_tall_item_is_container(w: OwnedValue)
    ensures
        height(w) >= 1 ==> wire_major(w) == 4 || wire_major(w) == 5 || wire_major(w) == 6,
{
}

/// No item announces the break head: the break byte only ever ends an
/// indefinite-length container.
pub proof fn lemma_no_break_item(w: OwnedValue)
    ensures
        !(wire_major(w) == 7 && wire_minor(w) is Indefinite),
{
}

/// Reads `count` items one after the other, appending them to `acc`.
fn parse_items(b: &[u8], pos: usize, count: u64, depth: u32, acc: Vec<OwnedValue>) -> (r: Result<
    (Vec<OwnedValue>, usize),
    Error,
>)
    requires
        pos <= b@.len(),
    ensures
        (r matches Ok((els, n)) ==> els@.len() == acc@.len() + count && els@.subrange(
            0,
            acc@.len() as int,
        ) == acc@ && wf_items(els@.skip(acc@.len() as int)) && items_height(
            els@.skip(acc@.len() as int),
        ) <= depth && pos <= n <= b@.len() && b@.subrange(pos as int, n as int) == items_bytes(
            els@.skip(acc@.len() as int),
        )),
        forall|ws: Seq<OwnedValue>|
            (#[trigger] items_match_at(b@, pos as int, ws)) && ws.len() == count && items_height(
                ws,
            ) <= depth ==> (r matches Ok((els, n)) && els@.len() == acc@.len() + ws.len()
                && els@.subrange(0, acc@.len() as int) == acc@ && same_items(
                els@.skip(acc@.len() as int),
                ws,
            ) && n == pos + items_bytes(ws).len()),
        forall|ws: Seq<OwnedValue>|
            (#[trigger] items_match_at(b@, pos as int, ws)) && ws.len() == count && items_height(
                ws,
            ) > depth ==> r == Err::<(Vec<OwnedValue>, usize), Error>(Error::RecursionLimit),
    decreases depth, b@.len() - pos, 1nat,
{
    if count == 0 {
        proof {
            assert(acc@.subrange(0, acc@.len() as int) =~= acc@);
            assert(acc@.skip(acc@.len() as int) =~= Seq::<OwnedValue>::empty());
            assert(b@.subrange(pos as int, pos as int) =~= Seq::<u8>::empty());
            assert forall|ws: Seq<OwnedValue>|
                (#[trigger] items_match_at(b@, pos as int, ws)) && ws.len() == count
                    && items_height(ws) > depth implies false by {
                assert(items_height(ws) == 0);
            }
        }
        return Ok((acc, pos));
    }
    match parse_item(b, pos, depth) {
        Err(e) => {
            proof {
                assert forall|ws: Seq<OwnedValue>|
                    (#[trigger] items_match_at(b@, pos as int, ws)) && ws.len() == count
                        && items_height(ws) <= depth implies false by {
                    lemma_items_split(b@, pos as int, ws);
                    assert(match_at(b@, pos as int, ws[0]));
                }
                assert forall|ws: Seq<OwnedValue>|
                    (#[trigger] items_match_at(b@, pos as int, ws)) && ws.len() == count
                        && items_height(ws) > depth implies e == Error::RecursionLimit by {
                    lemma_items_split(b@, pos as int, ws);
                    assert(match_at(b@, pos as int, ws[0]));
                    if height(ws[0]) <= depth {
                        assert(false);
                    }
                }
            }
            Err(e)
        }
        Ok((v, p1)) => {
            let ghost accv = acc@;
            let mut acc2 = acc;
            acc2.push(v);
            match parse_items(b, p1, count - 1, depth, acc2) {
                Err(e) => {
                    proof {
                        assert forall|ws: Seq<OwnedValue>|
                            (#[trigger] items_match_at(b@, pos as int, ws)) && ws.len() == count
                                && items_height(ws) <= depth implies false by {
                            lemma_items_split(b@, pos as int, ws);
                            assert(match_at(b@, pos as int, ws[0]));
                            assert(items_match_at(b@, p1 as int, ws.drop_first()));
                        }
                        assert forall|ws: Seq<OwnedValue>|
                            (#[trigger] items_match_at(b@, pos as int, ws)) && ws.len() == count
                                && items_height(ws) > depth implies e == Error::RecursionLimit by {
                            lemma_items_split(b@, pos as int, ws);
                            assert(match_at(b@, pos as int, ws[0]));
                            if height(ws[0]) > depth {
                                assert(false);
                            } else {
                                assert(items_height(ws.drop_first()) > depth);
                                assert(items_match_at(b@, p1 as int, ws.drop_first()));
                            }
                        }
                    }
                    Err(e)
                }
                Ok((els, n)) => {
                    proof {
                        assert forall|ws: Seq<OwnedValue>|
                            (#[trigger] items_match_at(b@, pos as int, ws)) && ws.len() == count
                                && items_height(ws) > depth implies false by {
                            lemma_items_split(b@, pos as int, ws);
                            assert(match_at(b@, pos as int, ws[0]));
                            if height(ws[0]) > depth {
                            } else {
                                assert(items_height(ws.drop_first()) > depth);
                                assert(items_match_at(b@, p1 as int, ws.drop_first()));
                            }
                        }
                        let al = accv.len() as int;
                        let tail = els@.skip(al);
                        assert(els@.subrange(0, al + 1) == accv.push(v));
                        assert forall|k: int| 0 <= k < al implies els@[k] == accv[k] by {
                            assert(els@.subrange(0, al + 1)[k] == els@[k]);
                            assert(accv.push(v)[k] == accv[k]);
                        }
                        assert(els@.subrange(0, al) =~= accv);
                        assert(els@[al] == v) by {
                            assert(els@.subrange(0, al + 1)[al] == els@[al]);
                            assert(accv.push(v)[al] == v);
                        }
                        assert(tail.len() == count);
                        assert(tail[0] == v);
                        assert(tail.drop_first() =~= els@.skip(al + 1));
                        assert(wf_items(tail));
                        assert(items_height(tail) <= depth);
                        assert(b@.subrange(pos as int, n as int) =~= b@.subrange(
                            pos as int,
                            p1 as int,
                        ) + b@.subrange(p1 as int, n as int));
                        assert(items_bytes(tail) == wire_bytes(v) + items_bytes(
                            tail.drop_first(),
                        ));
                        assert(b@.subrange(pos as int, n as int) == items_bytes(tail));
                        assert forall|ws: Seq<OwnedValue>|
                            (#[trigger] items_match_at(b@, pos as int, ws)) && ws.len() == count
                                && items_height(ws) <= depth implies same_items(tail, ws) && n
                            == pos + items_bytes(ws).len() by {
                            lemma_items_split(b@, pos as int, ws);
                            assert(match_at(b@, pos as int, ws[0]));
                            assert(same_item(v, ws[0]));
                            assert(items_match_at(b@, p1 as int, ws.drop_first()));
                            assert(same_items(els@.skip(al + 1), ws.drop_first()));
                            assert(same_items(tail, ws));
                        }
                    }
                    Ok((els, n))
                }
            }
        }
    }
}

/// Reads `count` key-value pairs one after the other, appending them to
/// `acc`.
fn parse_pairs(
    b: &[u8],
    pos: usize,
    count: u64,
    depth: u32,
    acc: Vec<(OwnedValue, OwnedValue)>,
) -> (r: Result<(Vec<(OwnedValue, OwnedValue)>, usize), Error>)
    requires
        pos <= b@.len(),
    ensures
        (r matches Ok((els, n)) ==> els@.len() == acc@.len() + count && els@.subrange(
            0,
            acc@.len() as int,
        ) == acc@ && wf_pairs(els@.skip(acc@.len() as int)) && pairs_height(
            els@.skip(acc@.len() as int),
        ) <= depth && pos <= n <= b@.len() && b@.subrange(pos as int, n as int) == pairs_bytes(
            els@.skip(acc@.len() as int),
        )),
        forall|ws: Seq<(OwnedValue, OwnedValue)>|
            (#[trigger] pairs_match_at(b@, pos as int, ws)) && ws.len() == count && pairs_height(
                ws,
            ) <= depth ==> (r matches Ok((els, n)) && els@.len() == acc@.len() + ws.len()
                && els@.subrange(0, acc@.len() as int) == acc@ && same_pairs(
                els@.skip(acc@.len() as int),
                ws,
            ) && n == pos + pairs_bytes(ws).len()),
        forall|ws: Seq<(OwnedValue, OwnedValue)>|
            (#[trigger] pairs_match_at(b@, pos as int, ws)) && ws.len() == count && pairs_height(
                ws,
            ) > depth ==> r == Err::<(Vec<(OwnedValue, OwnedValue)>, usize), Error>(
                Error::RecursionLimit,
            ),
    decreases depth, b@.len() - pos, 1nat,
{
    if count == 0 {
        proof {
            assert(acc@.subrange(0, acc@.len() as int) =~= acc@);
            assert(acc@.skip(acc@.len() as int) =~= Seq::<(OwnedValue, OwnedValue)>::empty());
            assert(b@.subrange(pos as int, pos as int) =~= Seq::<u8>::empty());
            assert forall|ws: Seq<(OwnedValue, OwnedValue)>|
                (#[trigger] pairs_match_at(b@, pos as int, ws)) && ws.len() == count
                    && pairs_height(ws) > depth implies false by {
                assert(pairs_height(ws) == 0);
            }
        }
        return Ok((acc, pos));
    }
    match parse_item(b, pos, depth) {
        Err(e) => {
            proof {
                assert forall|ws: Seq<(OwnedValue, OwnedValue)>|
                    (#[trigger] pairs_match_at(b@, pos as int, ws)) && ws.len() == count
                        && pairs_height(ws) <= depth implies false by {
                    lemma_pairs_split(b@, pos as int, ws);
                    assert(match_at(b@, pos as int, ws[0].0));
                }
                assert forall|ws: Seq<(OwnedValue, OwnedValue)>|
                    (#[trigger] pairs_match_at(b@, pos as int, ws)) && ws.len() == count
                        && pairs_height(ws) > depth implies e == Error::RecursionLimit by {
                    lemma_pairs_split(b@, pos as int, ws);
                    assert(match_at(b@, pos as int, ws[0].0));
                    if height(ws[0].0) <= depth {
                        assert(false);
                    }
                }
            }
            Err(e)
        }
        Ok((k, p1)) => {
            match parse_item(b, p1, depth) {
                Err(e) => {
                    proof {
                        assert forall|ws: Seq<(OwnedValue, OwnedValue)>|
                            (#[trigger] pairs_match_at(b@, pos as int, ws)) && ws.len() == count
                                && pairs_height(ws) <= depth implies false by {
                            lemma_pairs_split(b@, pos as int, ws);
                            assert(match_at(b@, pos as int, ws[0].0));
                            assert(same_item(k, ws[0].0));
                            assert(match_at(b@, p1 as int, ws[0].1));
                        }
                        assert forall|ws: Seq<(OwnedValue, OwnedValue)>|
                            (#[trigger] pairs_match_at(b@, pos as int, ws)) && ws.len() == count
                                && pairs_height(ws) > depth implies e == Error::RecursionLimit by {
                            lemma_pairs_split(b@, pos as int, ws);
                            assert(match_at(b@, pos as int, ws[0].0));
                            if height(ws[0].0) > depth {
                                assert(false);
                            } else {
                                assert(match_at(b@, p1 as int, ws[0].1));
                                if height(ws[0].1) <= depth {
                                    assert(false);
                                }
                            }
                        }
                    }
                    Err(e)
                }
                Ok((v, p2)) => {
                    let ghost accv = acc@;
                    let mut acc2 = acc;
                    acc2.push((k, v));
                    match parse_pairs(b, p2, count - 1, depth, acc2) {
                        Err(e) => {
                            proof {
                                assert forall|ws: Seq<(OwnedValue, OwnedValue)>|
                                    (#[trigger] pairs_match_at(b@, pos as int, ws)) && ws.len()
                                        == count && pairs_height(ws) <= depth implies false by {
                                    lemma_pairs_split(b@, pos as int, ws);
                                    assert(match_at(b@, pos as int, ws[0].0));
                                    assert(same_item(k, ws[0].0));
                                    assert(match_at(b@, p1 as int, ws[0].1));
                                    assert(same_item(v, ws[0].1));
                                    assert(pairs_match_at(b@, p2 as int, ws.drop_first()));
                                }
                                assert forall|ws: Seq<(OwnedValue, OwnedValue)>|
                                    (#[trigger] pairs_match_at(b@, pos as int, ws)) && ws.len()
                                        == count && pairs_height(ws) > depth implies e
                                    == Error::RecursionLimit by {
                                    lemma_pairs_split(b@, pos as int, ws);
                                    assert(match_at(b@, pos as int, ws[0].0));
                                    if height(ws[0].0) > depth {
                                        assert(false);
                                    } else {
                                        assert(match_at(b@, p1 as int, ws[0].1));
                                        if height(ws[0].1) > depth {
                                            assert(false);
                                        } else {
                                            assert(pairs_height(ws.drop_first()) > depth);
                                            assert(pairs_match_at(
                                                b@,
                                                p2 as int,
                                                ws.drop_first(),
                                            ));
                                        }
                                    }
                                }
                            }
                            Err(e)
                        }
                        Ok((els, n)) => {
                            proof {
                                assert forall|ws: Seq<(OwnedValue, OwnedValue)>|
                                    (#[trigger] pairs_match_at(b@, pos as int, ws)) && ws.len()
                                        == count && pairs_height(ws) > depth implies false by {
                                    lemma_pairs_split(b@, pos as int, ws);
                                    assert(match_at(b@, pos as int, ws[0].0));
                                    if height(ws[0].0) > depth {
                                    } else {
                                        assert(match_at(b@, p1 as int, ws[0].1));
                                        if height(ws[0].1) > depth {
                                        } else {
                                            assert(pairs_height(ws.drop_first()) > depth);
                                            assert(pairs_match_at(
                                                b@,
                                                p2 as int,
                                                ws.drop_first(),
                                            ));
                                        }
                                    }
                                }
                                let al = accv.len() as int;
                                let tail = els@.skip(al);
                                assert(els@.subrange(0, al + 1) == accv.push((k, v)));
                                assert forall|j: int| 0 <= j < al implies els@[j] == accv[j] by {
                                    assert(els@.subrange(0, al + 1)[j] == els@[j]);
                                    assert(accv.push((k, v))[j] == accv[j]);
                                }
                                assert(els@.subrange(0, al) =~= accv);
                                assert(els@[al] == (k, v)) by {
                                    assert(els@.subrange(0, al + 1)[al] == els@[al]);
                                    assert(accv.push((k, v))[al] == (k, v));
                                }
                                assert(tail.len() == count);
                                assert(tail[0] == (k, v));
                                assert(tail.drop_first() =~= els@.skip(al + 1));
                                assert(wf_pairs(tail));
                                assert(pairs_height(tail) <= depth);
                                assert(b@.subrange(pos as int, n as int) =~= b@.subrange(
                                    pos as int,
                                    p1 as int,
                                ) + b@.subrange(p1 as int, p2 as int) + b@.subrange(
                                    p2 as int,
                                    n as int,
                                ));
                                assert(pairs_bytes(tail) == wire_bytes(k) + wire_bytes(v)
                                    + pairs_bytes(tail.drop_first()));
                                assert(b@.subrange(pos as int, n as int) == pairs_bytes(tail));
                                assert forall|ws: Seq<(OwnedValue, OwnedValue)>|
                                    (#[trigger] pairs_match_at(b@, pos as int, ws)) && ws.len()
                                        == count && pairs_height(ws) <= depth implies same_pairs(
                                    tail,
                                    ws,
                                ) && n == pos + pairs_bytes(ws).len() by {
                                    lemma_pairs_split(b@, pos as int, ws);
                                    assert(match_at(b@, pos as int, ws[0].0));
                                    assert(same_item(k, ws[0].0));
                                    assert(match_at(b@, p1 as int, ws[0].1));
                                    assert(same_item(v, ws[0].1));
                                    assert(pairs_match_at(b@, p2 as int, ws.drop_first()));
                                    assert(same_pairs(els@.skip(al + 1), ws.drop_first()));
                                    assert(same_pairs(tail, ws));
                                }
                            }
                            Ok((els, n))
                        }
                    }
                }
            }
        }
    }
}


/// Reads items until the break byte, appending them to `acc`.
fn parse_items_indef(b: &[u8], pos: usize, depth: u32, acc: Vec<OwnedValue>) -> (r: Result<
    (Vec<OwnedValue>, usize),
    Error,
>)
    requires
        pos <= b@.len(),
    ensures
        (r matches Ok((els, n)) ==> els@.len() >= acc@.len() && els@.subrange(
            0,
            acc@.len() as int,
        ) == acc@ && wf_items(els@.skip(acc@.len() as int)) && items_height(
            els@.skip(acc@.len() as int),
        ) <= depth && pos < n <= b@.len() && b@.subrange(pos as int, n - 1) == items_bytes(
            els@.skip(acc@.len() as int),
        ) && b@[n - 1] == 0xff),
        forall|ws: Seq<OwnedValue>|
            (#[trigger] items_match_at(b@, pos as int, ws)) && pos + items_bytes(ws).len() + 1
                <= b@.len() && b@[pos + items_bytes(ws).len()] == 0xff && items_height(ws) <= depth
                ==> (r matches Ok((els, n)) && els@.len() == acc@.len() + ws.len()
                && els@.subrange(0, acc@.len() as int) == acc@ && same_items(
                els@.skip(acc@.len() as int),
                ws,
            ) && n == pos + items_bytes(ws).len() + 1),
        forall|ws: Seq<OwnedValue>|
            (#[trigger] items_match_at(b@, pos as int, ws)) && pos + items_bytes(ws).len() + 1
                <= b@.len() && b@[pos + items_bytes(ws).len()] == 0xff && items_height(ws) > depth
                ==> r == Err::<(Vec<OwnedValue>, usize), Error>(Error::RecursionLimit),
    decreases depth, b@.len() - pos, 1nat,
{
    let n0 = b.len();
    if pos >= n0 {
        return Err(Error::UnexpectedEof);
    }
    let c = *slice_index_get(b, pos);
    if c == 0xff {
        proof {
            assert(acc@.subrange(0, acc@.len() as int) =~= acc@);
            assert(acc@.skip(acc@.len() as int) =~= Seq::<OwnedValue>::empty());
            assert(b@.subrange(pos as int, pos as int) =~= Seq::<u8>::empty());
            assert forall|ws: Seq<OwnedValue>|
                (#[trigger] items_match_at(b@, pos as int, ws)) && pos + items_bytes(ws).len() + 1
                    <= b@.len() && b@[pos + items_bytes(ws).len()] == 0xff implies ws.len()
                == 0 by {
                if ws.len() > 0 {
                    lemma_items_split(b@, pos as int, ws);
                    lemma_wire_shape(b@, pos as int, ws[0]);
                    lemma_no_break_item(ws[0]);
                    assert(b@[pos as int] == 0xff);
                    assert(b@[pos as int] / 32 == 7 && b@[pos as int] % 32 == 31);
                }
            }
        }
        return Ok((acc, pos + 1));
    }
    match parse_item(b, pos, depth) {
        Err(e) => {
            proof {
                assert forall|ws: Seq<OwnedValue>|
                    (#[trigger] items_match_at(b@, pos as int, ws)) && pos + items_bytes(ws).len()
                        + 1 <= b@.len() && b@[pos + items_bytes(ws).len()] == 0xff && items_height(
                        ws,
                    ) <= depth implies false by {
                    if ws.len() == 0 {
                        assert(items_bytes(ws).len() == 0);
                        assert(b@[pos as int] == 0xff);
                    } else {
                        lemma_items_split(b@, pos as int, ws);
                        assert(match_at(b@, pos as int, ws[0]));
                    }
                }
                assert forall|ws: Seq<OwnedValue>|
                    (#[trigger] items_match_at(b@, pos as int, ws)) && pos + items_bytes(ws).len()
                        + 1 <= b@.len() && b@[pos + items_bytes(ws).len()] == 0xff && items_height(
                        ws,
                    ) > depth implies e == Error::RecursionLimit by {
                    if ws.len() == 0 {
                        assert(items_bytes(ws).len() == 0);
                        assert(b@[pos as int] == 0xff);
                        assert(false);
                    } else {
                        lemma_items_split(b@, pos as int, ws);
                        assert(match_at(b@, pos as int, ws[0]));
                        if height(ws[0]) <= depth {
                            assert(false);
                        }
                    }
                }
            }
            Err(e)
        }
        Ok((v, p1)) => {
            let ghost accv = acc@;
            let mut acc2 = acc;
            acc2.push(v);
            match parse_items_indef(b, p1, depth, acc2) {
                Err(e) => {
                    proof {
                        assert forall|ws: Seq<OwnedValue>|
                            (#[trigger] items_match_at(b@, pos as int, ws)) && pos + items_bytes(
                                ws,
                            ).len() + 1 <= b@.len() && b@[pos + items_bytes(ws).len()] == 0xff
                                && items_height(ws) <= depth implies false by {
                            if ws.len() == 0 {
                                assert(items_bytes(ws).len() == 0);
                                assert(b@[pos as int] == 0xff);
                            } else {
                                lemma_items_split(b@, pos as int, ws);
                                assert(match_at(b@, pos as int, ws[0]));
                                assert(items_match_at(b@, p1 as int, ws.drop_first()));
                            }
                        }
                        assert forall|ws: Seq<OwnedValue>|
                            (#[trigger] items_match_at(b@, pos as int, ws)) && pos + items_bytes(
                                ws,
                            ).len() + 1 <= b@.len() && b@[pos + items_bytes(ws).len()] == 0xff
                                && items_height(ws) > depth implies e == Error::RecursionLimit by {
                            if ws.len() == 0 {
                                assert(items_bytes(ws).len() == 0);
                                assert(b@[pos as int] == 0xff);
                                assert(false);
                            } else {
                                lemma_items_split(b@, pos as int, ws);
                                assert(match_at(b@, pos as int, ws[0]));
                                if height(ws[0]) > depth {
                                    assert(false);
                                } else {
                                    assert(items_height(ws.drop_first()) > depth);
                                    assert(items_match_at(b@, p1 as int, ws.drop_first()));
                                    assert(p1 + items_bytes(ws.drop_first()).len() + 1
                                        <= b@.len());
                                    assert(b@[p1 + items_bytes(ws.drop_first()).len()] == 0xff);
                                }
                            }
                        }
                    }
                    Err(e)
                }
                Ok((els, n)) => {
                    proof {
                        assert forall|ws: Seq<OwnedValue>|
                            (#[trigger] items_match_at(b@, pos as int, ws)) && pos + items_bytes(
                                ws,
                            ).len() + 1 <= b@.len() && b@[pos + items_bytes(ws).len()] == 0xff
                                && items_height(ws) > depth implies false by {
                            if ws.len() == 0 {
                                assert(items_bytes(ws).len() == 0);
                                assert(b@[pos as int] == 0xff);
                            } else {
                                lemma_items_split(b@, pos as int, ws);
                                assert(match_at(b@, pos as int, ws[0]));
                                if height(ws[0]) > depth {
                                } else {
                                    assert(items_height(ws.drop_first()) > depth);
                                    assert(items_match_at(b@, p1 as int, ws.drop_first()));
                                    assert(p1 + items_bytes(ws.drop_first()).len() + 1
                                        <= b@.len());
                                    assert(b@[p1 + items_bytes(ws.drop_first()).len()] == 0xff);
                                }
                            }
                        }
                        let al = accv.len() as int;
                        let tail = els@.skip(al);
                        assert(els@.subrange(0, al + 1) == accv.push(v));
                        assert forall|j: int| 0 <= j < al implies els@[j] == accv[j] by {
                            assert(els@.subrange(0, al + 1)[j] == els@[j]);
                            assert(accv.push(v)[j] == accv[j]);
                        }
                        assert(els@.subrange(0, al) =~= accv);
                        assert(els@[al] == v) by {
                            assert(els@.subrange(0, al + 1)[al] == els@[al]);
                            assert(accv.push(v)[al] == v);
                        }
                        assert(tail.len() >= 1);
                        assert(tail[0] == v);
                        assert(tail.drop_first() =~= els@.skip(al + 1));
                        assert(wf_items(tail));
                        assert(items_height(tail) <= depth);
                        assert(b@.subrange(pos as int, n - 1) =~= b@.subrange(
                            pos as int,
                            p1 as int,
                        ) + b@.subrange(p1 as int, n - 1));
                        assert(items_bytes(tail) == wire_bytes(v) + items_bytes(
                            tail.drop_first(),
                        ));
                        assert(b@.subrange(pos as int, n - 1) == items_bytes(tail));
                        assert forall|ws: Seq<OwnedValue>|
                            (#[trigger] items_match_at(b@, pos as int, ws)) && pos + items_bytes(
                                ws,
                            ).len() + 1 <= b@.len() && b@[pos + items_bytes(ws).len()] == 0xff
                                && items_height(ws) <= depth implies same_items(tail, ws) && n
                            == pos + items_bytes(ws).len() + 1 by {
                            if ws.len() == 0 {
                                assert(items_bytes(ws).len() == 0);
                                assert(b@[pos as int] == 0xff);
                                assert(false);
                            } else {
                                lemma_items_split(b@, pos as int, ws);
                                assert(match_at(b@, pos as int, ws[0]));
                                assert(same_item(v, ws[0]));
                                assert(items_match_at(b@, p1 as int, ws.drop_first()));
                                assert(p1 + items_bytes(ws.drop_first()).len() + 1 <= b@.len());
                                assert(b@[p1 + items_bytes(ws.drop_first()).len()] == 0xff);
                                assert(same_items(els@.skip(al + 1), ws.drop_first()));
                                assert(same_items(tail, ws));
                            }
                        }
                    }
                    Ok((els, n))
                }
            }
        }
    }
}

/// Reads key-value pairs until the break byte, appending them to `acc`.
fn parse_pairs_indef(b: &[u8], pos: usize, depth: u32, acc: Vec<(OwnedValue, OwnedValue)>) -> (r:
    Result<(Vec<(OwnedValue, OwnedValue)>, usize), Error>)
    requires
        pos <= b@.len(),
    ensures
        (r matches Ok((els, n)) ==> els@.len() >= acc@.len() && els@.subrange(
            0,
            acc@.len() as int,
        ) == acc@ && wf_pairs(els@.skip(acc@.len() as int)) && pairs_height(
            els@.skip(acc@.len() as int),
        ) <= depth && pos < n <= b@.len() && b@.subrange(pos as int, n - 1) == pairs_bytes(
            els@.skip(acc@.len() as int),
        ) && b@[n - 1] == 0xff),
        forall|ws: Seq<(OwnedValue, OwnedValue)>|
            (#[trigger] pairs_match_at(b@, pos as int, ws)) && pos + pairs_bytes(ws).len() + 1
                <= b@.len() && b@[pos + pairs_bytes(ws).len()] == 0xff && pairs_height(ws) <= depth
                ==> (r matches Ok((els, n)) && els@.len() == acc@.len() + ws.len()
                && els@.subrange(0, acc@.len() as int) == acc@ && same_pairs(
                els@.skip(acc@.len() as int),
                ws,
            ) && n == pos + pairs_bytes(ws).len() + 1),
        forall|ws: Seq<(OwnedValue, OwnedValue)>|
            (#[trigger] pairs_match_at(b@, pos as int, ws)) && pos + pairs_bytes(ws).len() + 1
                <= b@.len() && b@[pos + pairs_bytes(ws).len()] == 0xff && pairs_height(ws) > depth
                ==> r == Err::<(Vec<(OwnedValue, OwnedValue)>, usize), Error>(
                Error::RecursionLimit,
            ),
    decreases depth, b@.len() - pos, 1nat,
{
    let n0 = b.len();
    if pos >= n0 {
        return Err(Error::UnexpectedEof);
    }
    let c = *slice_index_get(b, pos);
    if c == 0xff {
        proof {
            assert(acc@.subrange(0, acc@.len() as int) =~= acc@);
            assert(acc@.skip(acc@.len() as int) =~= Seq::<(OwnedValue, OwnedValue)>::empty());
            assert(b@.subrange(pos as int, pos as int) =~= Seq::<u8>::empty());
            assert forall|ws: Seq<(OwnedValue, OwnedValue)>|
                (#[trigger] pairs_match_at(b@, pos as int, ws)) && pos + pairs_bytes(ws).len() + 1
                    <= b@.len() && b@[pos + pairs_bytes(ws).len()] == 0xff implies ws.len()
                == 0 by {
                if ws.len() > 0 {
                    lemma_pairs_split(b@, pos as int, ws);
                    lemma_wire_shape(b@, pos as int, ws[0].0);
                    lemma_no_break_item(ws[0].0);
                    assert(b@[pos as int] == 0xff);
                    assert(b@[pos as int] / 32 == 7 && b@[pos as int] % 32 == 31);
                }
            }
        }
        return Ok((acc, pos + 1));
    }
    match parse_item(b, pos, depth) {
        Err(e) => {
            proof {
                assert forall|ws: Seq<(OwnedValue, OwnedValue)>|
                    (#[trigger] pairs_match_at(b@, pos as int, ws)) && pos + pairs_bytes(ws).len()
                        + 1 <= b@.len() && b@[pos + pairs_bytes(ws).len()] == 0xff && pairs_height(
                        ws,
                    ) <= depth implies false by {
                    if ws.len() == 0 {
                        assert(pairs_bytes(ws).len() == 0);
                        assert(b@[pos as int] == 0xff);
                    } else {
                        lemma_pairs_split(b@, pos as int, ws);
                        assert(match_at(b@, pos as int, ws[0].0));
                    }
                }
                assert forall|ws: Seq<(OwnedValue, OwnedValue)>|
                    (#[trigger] pairs_match_at(b@, pos as int, ws)) && pos + pairs_bytes(ws).len()
                        + 1 <= b@.len() && b@[pos + pairs_bytes(ws).len()] == 0xff && pairs_height(
                        ws,
                    ) > depth implies e == Error::RecursionLimit by {
                    if ws.len() == 0 {
                        assert(pairs_bytes(ws).len() == 0);
                        assert(b@[pos as int] == 0xff);
                        assert(false);
                    } else {
                        lemma_pairs_split(b@, pos as int, ws);
                        assert(match_at(b@, pos as int, ws[0].0));
                        if height(ws[0].0) <= depth {
                            assert(false);
                        }
                    }
                }
            }
            Err(e)
        }
        Ok((k, p1)) => {
            match parse_item(b, p1, depth) {
                Err(e) => {
                    proof {
                        assert forall|ws: Seq<(OwnedValue, OwnedValue)>|
                            (#[trigger] pairs_match_at(b@, pos as int, ws)) && pos + pairs_bytes(
                                ws,
                            ).len() + 1 <= b@.len() && b@[pos + pairs_bytes(ws).len()] == 0xff
                                && pairs_height(ws) <= depth implies false by {
                            if ws.len() == 0 {
                                assert(pairs_bytes(ws).len() == 0);
                                assert(b@[pos as int] == 0xff);
                            } else {
                                lemma_pairs_split(b@, pos as int, ws);
                                assert(match_at(b@, pos as int, ws[0].0));
                                assert(match_at(b@, p1 as int, ws[0].1));
                            }
                        }
                        assert forall|ws: Seq<(OwnedValue, OwnedValue)>|
                            (#[trigger] pairs_match_at(b@, pos as int, ws)) && pos + pairs_bytes(
                                ws,
                            ).len() + 1 <= b@.len() && b@[pos + pairs_bytes(ws).len()] == 0xff
                                && pairs_height(ws) > depth implies e == Error::RecursionLimit by {
                            if ws.len() == 0 {
                                assert(pairs_bytes(ws).len() == 0);
                                assert(b@[pos as int] == 0xff);
                                assert(false);
                            } else {
                                lemma_pairs_split(b@, pos as int, ws);
                                assert(match_at(b@, pos as int, ws[0].0));
                                if height(ws[0].0) > depth {
                                    assert(false);
                                } else {
                                    assert(match_at(b@, p1 as int, ws[0].1));
                                    if height(ws[0].1) <= depth {
                                        assert(false);
                                    }
                                }
                            }
                        }
                    }
                    Err(e)
                }
                Ok((v, p2)) => {
                    let ghost accv = acc@;
                    let mut acc2 = acc;
                    acc2.push((k, v));
                    match parse_pairs_indef(b, p2, depth, acc2) {
                        Err(e) => {
                            proof {
                                assert forall|ws: Seq<(OwnedValue, OwnedValue)>|
                                    (#[trigger] pairs_match_at(b@, pos as int, ws)) && pos
                                        + pairs_bytes(ws).len() + 1 <= b@.len() && b@[pos
                                        + pairs_bytes(ws).len()] == 0xff && pairs_height(ws)
                                        <= depth implies false by {
                                    if ws.len() == 0 {
                                        assert(pairs_bytes(ws).len() == 0);
                                        assert(b@[pos as int] == 0xff);
                                    } else {
                                        lemma_pairs_split(b@, pos as int, ws);
                                        assert(match_at(b@, pos as int, ws[0].0));
                                        assert(match_at(b@, p1 as int, ws[0].1));
                                        assert(pairs_match_at(b@, p2 as int, ws.drop_first()));
                                    }
                                }
                                assert forall|ws: Seq<(OwnedValue, OwnedValue)>|
                                    (#[trigger] pairs_match_at(b@, pos as int, ws)) && pos
                                        + pairs_bytes(ws).len() + 1 <= b@.len() && b@[pos
                                        + pairs_bytes(ws).len()] == 0xff && pairs_height(ws)
                                        > depth implies e == Error::RecursionLimit by {
                                    if ws.len() == 0 {
                                        assert(pairs_bytes(ws).len() == 0);
                                        assert(b@[pos as int] == 0xff);
                                        assert(false);
                                    } else {
                                        lemma_pairs_split(b@, pos as int, ws);
                                        assert(match_at(b@, pos as int, ws[0].0));
                                        if height(ws[0].0) > depth {
                                            assert(false);
                                        } else {
                                            assert(match_at(b@, p1 as int, ws[0].1));
                                            if height(ws[0].1) > depth {
                                                assert(false);
                                            } else {
                                                assert(pairs_height(ws.drop_first()) > depth);
                                                assert(pairs_match_at(
                                                    b@,
                                                    p2 as int,
                                                    ws.drop_first(),
                                                ));
                                                assert(p2 + pairs_bytes(ws.drop_first()).len()
                                                    + 1 <= b@.len());
                                                assert(b@[p2 + pairs_bytes(
                                                    ws.drop_first(),
                                                ).len()] == 0xff);
                                            }
                                        }
                                    }
                                }
                            }
                            Err(e)
                        }
                        Ok((els, n)) => {
                            proof {
                                assert forall|ws: Seq<(OwnedValue, OwnedValue)>|
                                    (#[trigger] pairs_match_at(b@, pos as int, ws)) && pos
                                        + pairs_bytes(ws).len() + 1 <= b@.len() && b@[pos
                                        + pairs_bytes(ws).len()] == 0xff && pairs_height(ws)
                                        > depth implies false by {
                                    if ws.len() == 0 {
                                        assert(pairs_bytes(ws).len() == 0);
                                        assert(b@[pos as int] == 0xff);
                                    } else {
                                        lemma_pairs_split(b@, pos as int, ws);
                                        assert(match_at(b@, pos as int, ws[0].0));
                                        if height(ws[0].0) > depth {
                                        } else {
                                            assert(match_at(b@, p1 as int, ws[0].1));
                                            if height(ws[0].1) > depth {
                                            } else {
                                                assert(pairs_height(ws.drop_first()) > depth);
                                                assert(pairs_match_at(
                                                    b@,
                                                    p2 as int,
                                                    ws.drop_first(),
                                                ));
                                                assert(p2 + pairs_bytes(ws.drop_first()).len()
                                                    + 1 <= b@.len());
                                                assert(b@[p2 + pairs_bytes(
                                                    ws.drop_first(),
                                                ).len()] == 0xff);
                                            }
                                        }
                                    }
                                }
                                let al = accv.len() as int;
                                let tail = els@.skip(al);
                                assert(els@.subrange(0, al + 1) == accv.push((k, v)));
                                assert forall|j: int| 0 <= j < al implies els@[j] == accv[j] by {
                                    assert(els@.subrange(0, al + 1)[j] == els@[j]);
                                    assert(accv.push((k, v))[j] == accv[j]);
                                }
                                assert(els@.subrange(0, al) =~= accv);
                                assert(els@[al] == (k, v)) by {
                                    assert(els@.subrange(0, al + 1)[al] == els@[al]);
                                    assert(accv.push((k, v))[al] == (k, v));
                                }
                                assert(tail.len() >= 1);
                                assert(tail[0] == (k, v));
                                assert(tail.drop_first() =~= els@.skip(al + 1));
                                assert(wf_pairs(tail));
                                assert(pairs_height(tail) <= depth);
                                assert(b@.subrange(pos as int, n - 1) =~= b@.subrange(
                                    pos as int,
                                    p1 as int,
                                ) + b@.subrange(p1 as int, p2 as int) + b@.subrange(
                                    p2 as int,
                                    n - 1,
                                ));
                                assert(pairs_bytes(tail) == wire_bytes(k) + wire_bytes(v)
                                    + pairs_bytes(tail.drop_first()));
                                assert(b@.subrange(pos as int, n - 1) == pairs_bytes(tail));
                                assert forall|ws: Seq<(OwnedValue, OwnedValue)>|
                                    (#[trigger] pairs_match_at(b@, pos as int, ws)) && pos
                                        + pairs_bytes(ws).len() + 1 <= b@.len() && b@[pos
                                        + pairs_bytes(ws).len()] == 0xff && pairs_height(ws)
                                        <= depth implies same_pairs(tail, ws) && n == pos
                                        + pairs_bytes(ws).len() + 1 by {
                                    if ws.len() == 0 {
                                        assert(pairs_bytes(ws).len() == 0);
                                        assert(b@[pos as int] == 0xff);
                                        assert(false);
                                    } else {
                                        lemma_pairs_split(b@, pos as int, ws);
                                        assert(match_at(b@, pos as int, ws[0].0));
                                        assert(same_item(k, ws[0].0));
                                        assert(match_at(b@, p1 as int, ws[0].1));
                                        assert(same_item(v, ws[0].1));
                                        assert(pairs_match_at(b@, p2 as int, ws.drop_first()));
                                        assert(p2 + pairs_bytes(ws.drop_first()).len() + 1
                                            <= b@.len());
                                        assert(b@[p2 + pairs_bytes(ws.drop_first()).len()]
                                            == 0xff);
                                        assert(same_pairs(els@.skip(al + 1), ws.drop_first()));
                                        assert(same_pairs(tail, ws));
                                    }
                                }
                            }
                            Ok((els, n))
                        }
                    }
                }
            }
        }
    }
}


/// Reads definite string chunks of the given major type until the break
/// byte, appending them to `acc`.
fn parse_chunks(b: &[u8], pos: usize, major: u8, acc: Vec<(MinorType, Vec<u8>)>) -> (r: Result<
    (Vec<(MinorType, Vec<u8>)>, usize),
    Error,
>)
    requires
        pos <= b@.len(),
        major == 2 || major == 3,
    ensures
        (r matches Ok((cs, n)) ==> cs@.len() >= acc@.len() && cs@.subrange(0, acc@.len() as int)
            == acc@ && wf_chunks(cs@.skip(acc@.len() as int)) && pos < n <= b@.len()
            && b@.subrange(pos as int, n - 1) == chunks_bytes(major, cs@.skip(acc@.len() as int))
            && b@[n - 1] == 0xff),
        forall|ds: Seq<(MinorType, Vec<u8>)>|
            (#[trigger] chunks_match_at(b@, pos as int, major, ds)) ==> (r matches Ok((cs, n))
                && cs@.len() == acc@.len() + ds.len() && cs@.subrange(0, acc@.len() as int) == acc@
                && same_chunks(cs@.skip(acc@.len() as int), ds) && n == pos + chunks_bytes(
                major,
                ds,
            ).len() + 1),
    decreases b@.len() - pos,
{
    let n0 = b.len();
    if pos >= n0 {
        return Err(Error::UnexpectedEof);
    }
    let c = *slice_index_get(b, pos);
    if c == 0xff {
        proof {
            assert(acc@.subrange(0, acc@.len() as int) =~= acc@);
            assert(acc@.skip(acc@.len() as int) =~= Seq::<(MinorType, Vec<u8>)>::empty());
            assert(b@.subrange(pos as int, pos as int) =~= Seq::<u8>::empty());
            assert forall|ds: Seq<(MinorType, Vec<u8>)>|
                (#[trigger] chunks_match_at(b@, pos as int, major, ds)) implies ds.len() == 0 by {
                if ds.len() > 0 {
                    lemma_chunks_split(b@, pos as int, major, ds);
                    assert(b@[pos as int] == 0xff);
                    assert(b@[pos as int] / 32 == 7 && b@[pos as int] % 32 == 31);
                }
            }
        }
        return Ok((acc, pos + 1));
    }
    match parse_head(b, pos) {
        Err(e) => {
            proof {
                assert forall|ds: Seq<(MinorType, Vec<u8>)>|
                    (#[trigger] chunks_match_at(b@, pos as int, major, ds)) implies false by {
                    if ds.len() == 0 {
                        assert(chunks_bytes(major, ds).len() == 0);
                        assert(b@[pos as int] == 0xff);
                    } else {
                        lemma_chunks_split(b@, pos as int, major, ds);
                    }
                }
            }
            Err(e)
        }
        Ok((cmj, cm, p)) => {
            proof {
                assert forall|ds: Seq<(MinorType, Vec<u8>)>|
                    (#[trigger] chunks_match_at(b@, pos as int, major, ds)) implies ds.len() > 0
                    && cmj == major && cm == ds[0].0 && minor_numeric(cm) && p == pos + head_bytes(
                    major,
                    cm,
                ).len() by {
                    if ds.len() == 0 {
                        assert(chunks_bytes(major, ds).len() == 0);
                        assert(b@[pos as int] == 0xff);
                    } else {
                        lemma_chunks_split(b@, pos as int, major, ds);
                    }
                }
            }
            if cmj != major {
                return Err(Error::InvalidIndefinite);
            }
            if let MinorType::Indefinite = cm {
                return Err(Error::InvalidIndefinite);
            }
            proof {
                assert(minor_numeric(cm) || cm is Indefinite) by {
                    lemma_sp_head_to_bytes(b@, pos as int, cmj, cm, p as int);
                }
            }
            let len64: u64 = cm.value();
            let remaining: u64 = (n0 - p) as u64;
            if len64 > remaining {
                proof {
                    assert forall|ds: Seq<(MinorType, Vec<u8>)>|
                        (#[trigger] chunks_match_at(b@, pos as int, major, ds)) implies false by {
                        lemma_chunks_split(b@, pos as int, major, ds);
                    }
                }
                return Err(Error::UnexpectedEof);
            }
            let len = len64 as usize;
            let content = slice_to_vec(slice_subrange(b, p, p + len));
            let ghost accv = acc@;
            let mut acc2 = acc;
            acc2.push((cm, content));
            match parse_chunks(b, p + len, major, acc2) {
                Err(e) => {
                    proof {
                        assert forall|ds: Seq<(MinorType, Vec<u8>)>|
                            (#[trigger] chunks_match_at(b@, pos as int, major, ds)) implies false
                            by {
                            lemma_chunks_split(b@, pos as int, major, ds);
                            assert(chunks_match_at(
                                b@,
                                p + minor_value(ds[0].0) as int,
                                major,
                                ds.drop_first(),
                            ));
                        }
                    }
                    Err(e)
                }
                Ok((cs, n)) => {
                    proof {
                        let al = accv.len() as int;
                        let tail = cs@.skip(al);
                        assert(cs@.subrange(0, al + 1) == accv.push((cm, content)));
                        assert forall|j: int| 0 <= j < al implies cs@[j] == accv[j] by {
                            assert(cs@.subrange(0, al + 1)[j] == cs@[j]);
                            assert(accv.push((cm, content))[j] == accv[j]);
                        }
                        assert(cs@.subrange(0, al) =~= accv);
                        assert(cs@[al] == (cm, content)) by {
                            assert(cs@.subrange(0, al + 1)[al] == cs@[al]);
                            assert(accv.push((cm, content))[al] == (cm, content));
                        }
                        assert(tail.len() >= 1);
                        assert(tail[0] == (cm, content));
                        assert(tail.drop_first() =~= cs@.skip(al + 1));
                        assert(wf_chunks(tail));
                        assert(b@.subrange(pos as int, n - 1) =~= b@.subrange(pos as int, p as int)
                            + b@.subrange(p as int, p + len) + b@.subrange(p + len as int, n - 1));
                        assert(b@.subrange(pos as int, p as int) == head_bytes(major, cm)) by {
                            lemma_sp_head_to_bytes(b@, pos as int, cmj, cm, p as int);
                        }
                        assert(content@ == b@.subrange(p as int, p + len));
                        assert(chunks_bytes(major, tail) == head_bytes(major, cm) + content@
                            + chunks_bytes(major, tail.drop_first()));
                        assert(b@.subrange(pos as int, n - 1) == chunks_bytes(major, tail));
                        assert forall|ds: Seq<(MinorType, Vec<u8>)>|
                            (#[trigger] chunks_match_at(b@, pos as int, major, ds)) implies
                            same_chunks(tail, ds) && n == pos + chunks_bytes(major, ds).len() + 1
                            by {
                            lemma_chunks_split(b@, pos as int, major, ds);
                            assert(minor_value(cm) == len);
                            assert(ds[0].1@ == b@.subrange(p as int, p + len));
                            assert(chunks_match_at(b@, p + len, major, ds.drop_first()));
                            assert(same_chunks(cs@.skip(al + 1), ds.drop_first()));
                            assert(tail[0].0 == ds[0].0 && tail[0].1@ == ds[0].1@);
                            assert(same_chunks(tail, ds));
                        }
                    }
                    Ok((cs, n))
                }
            }
        }
    }
}


/// Extending a run of chunks by one appends that chunk's bytes to the
/// assembled payload.
pub proof fn lemma_chunks_payload_snoc(cs: Seq<(MinorType, Vec<u8>)>, i: int)
    requires
        0 <= i < cs.len(),
    ensures
        chunks_payload(cs.take(i + 1)) == chunks_payload(cs.take(i)) + cs[i].1@,
    decreases i,
{
    if i == 0 {
        assert(cs.take(1) =~= seq![cs[0]]);
        assert(cs.take(1).drop_first() =~= Seq::<(MinorType, Vec<u8>)>::empty());
        assert(cs.take(0) =~= Seq::<(MinorType, Vec<u8>)>::empty());
        assert(chunks_payload(cs.take(i + 1)) =~= chunks_payload(cs.take(i)) + cs[i].1@);
    } else {
        lemma_chunks_payload_snoc(cs.drop_first(), i - 1);
        assert(cs.take(i + 1).drop_first() =~= cs.drop_first().take(i));
        assert(cs.take(i).drop_first() =~= cs.drop_first().take(i - 1));
        assert(cs.take(i + 1)[0] == cs[0]);
        assert(cs.take(i)[0] == cs[0]);
        assert(cs.drop_first()[i - 1] == cs[i]);
        assert(chunks_payload(cs.take(i + 1)) =~= chunks_payload(cs.take(i)) + cs[i].1@);
    }
}

/// The default bound on container and tag nesting while decoding.
pub const DEFAULT_RECURSION_LIMIT: u32 = 128;

/// Reads the rest of a string item (major type 2 or 3) whose head has
/// already been read.
#[verifier::rlimit(100)]
#[verifier::spinoff_prover]
fn parse_string_tail(b: &[u8], pos: usize, p: usize, m: MinorType, major: u8, depth: u32) -> (r:
    Result<(OwnedValue, usize), Error>)
    requires
        pos <= b@.len(),
        major == 2 || major == 3,
        sp_head(b@, pos as int) == Ok::<(u8, MinorType, int), Error>((major, m, p as int)),
        pos < p <= b@.len(),
    ensures
        (r matches Ok((v, n)) ==> wf(v) && height(v) <= depth && pos < n <= b@.len()
            && b@.subrange(pos as int, n as int) == wire_bytes(v)),
        forall|w: OwnedValue|
            (#[trigger] match_at(b@, pos as int, w)) && height(w) <= depth ==> (r matches Ok(
                (v, n),
            ) && same_item(v, w) && n == pos + wire_bytes(w).len()),
        minor_numeric(m) && p + minor_value(m) > b@.len() ==> r == Err::<
            (OwnedValue, usize),
            Error,
        >(Error::UnexpectedEof),
        major == 3 && minor_numeric(m) && p + minor_value(m) <= b@.len() && !valid_utf8(
            b@.subrange(p as int, p + minor_value(m)),
        ) ==> r == Err::<(OwnedValue, usize), Error>(Error::InvalidUtf8),
        major == 3 && m is Indefinite && (exists|cs: Seq<(MinorType, Vec<u8>)>|
            chunks_match_at(b@, p as int, 3, cs) && !valid_utf8(chunks_payload(cs))) ==> r
            == Err::<(OwnedValue, usize), Error>(Error::InvalidUtf8),
{
    let ghost bb = b@;
    let ghost posi = pos as int;
    let n0 = b.len();
    proof {
        lemma_sp_head_to_bytes(bb, posi, major, m, p as int);
    }
        if let MinorType::Indefinite = m {
            match parse_chunks(b, p, major, Vec::new()) {
                Err(e) => {
                    proof {
                        if exists|cs2: Seq<(MinorType, Vec<u8>)>|
                            chunks_match_at(bb, p as int, 3, cs2) && !valid_utf8(
                                chunks_payload(cs2),
                            ) {
                            let cs2 = choose|cs2: Seq<(MinorType, Vec<u8>)>|
                                chunks_match_at(bb, p as int, 3, cs2) && !valid_utf8(
                                    chunks_payload(cs2),
                                );
                            if major == 3 {
                                assert(chunks_match_at(bb, p as int, major, cs2));
                                assert(false);
                            }
                        }
                        assert forall|w: OwnedValue|
                            (#[trigger] match_at(bb, posi, w)) && height(w) <= depth implies false
                            by {
                            lemma_wire_shape(bb, posi, w);
                            lemma_wire_decompose(w);
                            match w {
                                OwnedValue::IndefiniteBytes(ds) => {
                                    assert(wire_payload(w) == chunks_bytes(2, ds@) + seq![
                                        0xffu8,
                                    ]);
                                    let cl = chunks_bytes(2, ds@).len() as int;
                                    assert(bb.subrange(p as int, p + cl) =~= wire_payload(
                                        w,
                                    ).subrange(0, cl));
                                    assert(bb.subrange(p as int, p + cl) == chunks_bytes(2, ds@));
                                    assert(bb[p + cl] == wire_payload(w)[cl]);
                                    assert(chunks_match_at(bb, p as int, 2, ds@));
                                }
                                OwnedValue::IndefiniteText(ds) => {
                                    assert(wire_payload(w) == chunks_bytes(3, ds@) + seq![
                                        0xffu8,
                                    ]);
                                    let cl = chunks_bytes(3, ds@).len() as int;
                                    assert(bb.subrange(p as int, p + cl) =~= wire_payload(
                                        w,
                                    ).subrange(0, cl));
                                    assert(bb.subrange(p as int, p + cl) == chunks_bytes(3, ds@));
                                    assert(bb[p + cl] == wire_payload(w)[cl]);
                                    assert(chunks_match_at(bb, p as int, 3, ds@));
                                }
                                _ => {
                                    assert(false);
                                }
                            }
                        }
                    }
                    Err(e)
                }
                Ok((cs, n)) => {
                    proof {
                        assert(cs@.skip(0) =~= cs@);
                    }
                    if major == 3 {
                        let mut pv: Vec<u8> = Vec::new();
                        proof {
                            assert(chunks_payload(cs@.take(0)) =~= Seq::<u8>::empty());
                        }
                        for i in 0..cs.len()
                            invariant
                                pv@ == chunks_payload(cs@.take(i as int)),
                        {
                            pv.extend_from_slice(cs[i].1.as_slice());
                            proof {
                                lemma_chunks_payload_snoc(cs@, i as int);
                            }
                        }
                        proof {
                            assert(cs@.take(cs@.len() as int) =~= cs@);
                        }
                        if !is_valid_utf8_vec(&pv) {
                            proof {
                                assert forall|w: OwnedValue|
                                    (#[trigger] match_at(bb, posi, w)) && height(w)
                                        <= depth implies false by {
                                    lemma_wire_shape(bb, posi, w);
                                    lemma_wire_decompose(w);
                                    match w {
                                        OwnedValue::IndefiniteText(ds) => {
                                            let cl = chunks_bytes(3, ds@).len() as int;
                                            let wlen = wire_bytes(w).len() as int;
                                            assert(wire_payload(w) == bb.subrange(
                                                p as int,
                                                posi + wlen,
                                            ));
                                            assert(bb.subrange(p as int, p + cl) =~= wire_payload(
                                                w,
                                            ).subrange(0, cl));
                                            assert(bb.subrange(p as int, posi + wlen)[cl] == bb[p
                                                + cl]);
                                            assert(wire_payload(w).subrange(0, cl)
                                                =~= chunks_bytes(3, ds@));
                                            assert(bb[p + cl] == wire_payload(w)[cl]);
                                            assert(chunks_match_at(bb, p as int, 3, ds@));
                                            assert(same_chunks(cs@, ds@));
                                            lemma_same_chunks_payload(cs@, ds@);
                                        }
                                        _ => {
                                            assert(false);
                                        }
                                    }
                                }
                            }
                            return Err(Error::InvalidUtf8);
                        }
                        let v = OwnedValue::IndefiniteText(cs);
                        proof {
                            if exists|cs2: Seq<(MinorType, Vec<u8>)>|
                                chunks_match_at(bb, p as int, 3, cs2) && !valid_utf8(
                                    chunks_payload(cs2),
                                ) {
                                let cs2 = choose|cs2: Seq<(MinorType, Vec<u8>)>|
                                    chunks_match_at(bb, p as int, 3, cs2) && !valid_utf8(
                                        chunks_payload(cs2),
                                    );
                                assert(chunks_match_at(bb, p as int, major, cs2));
                                assert(same_chunks(cs@, cs2));
                                lemma_same_chunks_payload(cs@, cs2);
                                assert(false);
                            }
                            assert(bb.subrange(posi, n as int) =~= bb.subrange(posi, p as int)
                                + bb.subrange(p as int, n - 1) + seq![bb[n - 1]]);
                            assert(wire_bytes(v) == seq![0x7fu8] + chunks_bytes(3, cs@) + seq![
                                0xffu8,
                            ]);
                            assert(head_bytes(3, MinorType::Indefinite) =~= seq![0x7fu8]);
                            assert(bb.subrange(posi, n as int) =~= wire_bytes(v));
                            assert forall|w: OwnedValue|
                                (#[trigger] match_at(bb, posi, w)) && height(w)
                                    <= depth implies same_item(v, w) && n == pos + wire_bytes(
                                w,
                            ).len() by {
                                lemma_wire_shape(bb, posi, w);
                                lemma_wire_decompose(w);
                                match w {
                                    OwnedValue::IndefiniteText(ds) => {
                                        let cl = chunks_bytes(3, ds@).len() as int;
                                        let wlen = wire_bytes(w).len() as int;
                                        assert(wire_payload(w) == bb.subrange(p as int, posi + wlen));
                                        assert(bb.subrange(p as int, p + cl) =~= wire_payload(
                                            w,
                                        ).subrange(0, cl));
                                        assert(bb.subrange(p as int, posi + wlen)[cl] == bb[p + cl]);
                                        assert(wire_payload(w).subrange(0, cl) =~= chunks_bytes(3, ds@));
                                        assert(bb[p + cl] == wire_payload(w)[cl]);
                                        assert(chunks_match_at(bb, p as int, 3, ds@));
                                        assert(same_chunks(cs@, ds@));
                                    }
                                    _ => {
                                        assert(false);
                                    }
                                }
                            }
                        }
                        Ok((v, n))
                    } else {
                        let v = OwnedValue::IndefiniteBytes(cs);
                        proof {
                            assert(bb.subrange(posi, n as int) =~= bb.subrange(posi, p as int)
                                + bb.subrange(p as int, n - 1) + seq![bb[n - 1]]);
                            assert(wire_bytes(v) == seq![0x5fu8] + chunks_bytes(2, cs@) + seq![
                                0xffu8,
                            ]);
                            assert(head_bytes(2, MinorType::Indefinite) =~= seq![0x5fu8]);
                            assert(bb.subrange(posi, n as int) =~= wire_bytes(v));
                            assert forall|w: OwnedValue|
                                (#[trigger] match_at(bb, posi, w)) && height(w)
                                    <= depth implies same_item(v, w) && n == pos + wire_bytes(
                                w,
                            ).len() by {
                                lemma_wire_shape(bb, posi, w);
                                lemma_wire_decompose(w);
                                match w {
                                    OwnedValue::IndefiniteBytes(ds) => {
                                        let cl = chunks_bytes(2, ds@).len() as int;
                                        let wlen = wire_bytes(w).len() as int;
                                        assert(wire_payload(w) == bb.subrange(p as int, posi + wlen));
                                        assert(bb.subrange(p as int, p + cl) =~= wire_payload(
                                            w,
                                        ).subrange(0, cl));
                                        assert(bb.subrange(p as int, posi + wlen)[cl] == bb[p + cl]);
                                        assert(wire_payload(w).subrange(0, cl) =~= chunks_bytes(2, ds@));
                                        assert(bb[p + cl] == wire_payload(w)[cl]);
                                        assert(chunks_match_at(bb, p as int, 2, ds@));
                                        assert(same_chunks(cs@, ds@));
                                    }
                                    _ => {
                                        assert(false);
                                    }
                                }
                            }
                        }
                        Ok((v, n))
                    }
                }
            }
        } else {
            let len64: u64 = m.value();
            let remaining: u64 = (n0 - p) as u64;
            if len64 > remaining {
                proof {
                    assert forall|w: OwnedValue|
                        (#[trigger] match_at(bb, posi, w)) && height(w) <= depth implies false by {
                        lemma_wire_shape(bb, posi, w);
                        match w {
                            OwnedValue::Bytes(mw, c) => {}
                            OwnedValue::Text(mw, c) => {}
                            _ => {
                                assert(false);
                            }
                        }
                    }
                }
                return Err(Error::UnexpectedEof);
            }
            let len = len64 as usize;
            let content = slice_to_vec(slice_subrange(b, p, p + len));
            if major == 3 {
                if !is_valid_utf8_vec(&content) {
                    proof {
                        assert forall|w: OwnedValue|
                            (#[trigger] match_at(bb, posi, w)) && height(w) <= depth implies false
                            by {
                            lemma_wire_shape(bb, posi, w);
                            match w {
                                OwnedValue::Text(mw, c) => {
                                    assert(c@ == bb.subrange(p as int, p + len));
                                }
                                _ => {
                                    assert(false);
                                }
                            }
                        }
                    }
                    return Err(Error::InvalidUtf8);
                }
                let v = OwnedValue::Text(m, content);
                proof {
                    assert(bb.subrange(posi, p + len) =~= bb.subrange(posi, p as int)
                        + bb.subrange(p as int, p + len));
                    assert(wire_bytes(v) == head_bytes(3, m) + content@);
                    assert(bb.subrange(posi, p + len) == wire_bytes(v));
                    assert forall|w: OwnedValue|
                        (#[trigger] match_at(bb, posi, w)) && height(w) <= depth implies same_item(
                        v,
                        w,
                    ) && p + len == pos + wire_bytes(w).len() by {
                        lemma_wire_shape(bb, posi, w);
                        lemma_wire_decompose(w);
                        match w {
                            OwnedValue::Text(mw, c) => {
                                assert(c@ == bb.subrange(p as int, p + len));
                            }
                            _ => {
                                assert(false);
                            }
                        }
                    }
                }
                Ok((v, p + len))
            } else {
                let v = OwnedValue::Bytes(m, content);
                proof {
                    assert(bb.subrange(posi, p + len) =~= bb.subrange(posi, p as int)
                        + bb.subrange(p as int, p + len));
                    assert(wire_bytes(v) == head_bytes(2, m) + content@);
                    assert(bb.subrange(posi, p + len) == wire_bytes(v));
                    assert forall|w: OwnedValue|
                        (#[trigger] match_at(bb, posi, w)) && height(w) <= depth implies same_item(
                        v,
                        w,
                    ) && p + len == pos + wire_bytes(w).len() by {
                        lemma_wire_shape(bb, posi, w);
                        lemma_wire_decompose(w);
                        match w {
                            OwnedValue::Bytes(mw, c) => {
                                assert(c@ == bb.subrange(p as int, p + len));
                            }
                            _ => {
                                assert(false);
                            }
                        }
                    }
                }
                Ok((v, p + len))
            }
        }
}

/// Reads the rest of an array item whose head has already been read;
/// its elements may nest at most `dc` deep.
#[verifier::rlimit(100)]
#[verifier::spinoff_prover]
fn parse_array_tail(b: &[u8], pos: usize, p: usize, m: MinorType, dc: u32) -> (r: Result<
    (OwnedValue, usize),
    Error,
>)
    requires
        pos <= b@.len(),
        sp_head(b@, pos as int) == Ok::<(u8, MinorType, int), Error>((4, m, p as int)),
        pos < p <= b@.len(),
    ensures
        (r matches Ok((v, n)) ==> wf(v) && height(v) <= dc + 1 && pos < n <= b@.len()
            && b@.subrange(pos as int, n as int) == wire_bytes(v)),
        forall|w: OwnedValue|
            (#[trigger] match_at(b@, pos as int, w)) && height(w) <= dc + 1 ==> (r matches Ok(
                (v, n),
            ) && same_item(v, w) && n == pos + wire_bytes(w).len()),
        forall|w: OwnedValue|
            (#[trigger] match_at(b@, pos as int, w)) && height(w) > dc + 1 ==> r == Err::<
                (OwnedValue, usize),
                Error,
            >(Error::RecursionLimit),
    decreases dc, b@.len() - pos, 2nat,
{
    let ghost bb = b@;
    let ghost posi = pos as int;
    let major: u8 = 4;
    proof {
        lemma_sp_head_to_bytes(bb, posi, major, m, p as int);
    }
        if let MinorType::Indefinite = m {
            match parse_items_indef(b, p, dc, Vec::new()) {
                Err(e) => {
                    proof {
                        assert forall|w: OwnedValue|
                            (#[trigger] match_at(bb, posi, w)) && height(w) <= (dc + 1) implies false
                            by {
                            lemma_wire_shape(bb, posi, w);
                            lemma_wire_decompose(w);
                            match w {
                                OwnedValue::IndefiniteArray(els) => {
                                    let cl = items_bytes(els@).len() as int;
                                    let wlen = wire_bytes(w).len() as int;
                                    assert(wire_payload(w) == bb.subrange(p as int, posi + wlen));
                                    assert(bb.subrange(p as int, p + cl) =~= wire_payload(
                                        w,
                                    ).subrange(0, cl));
                                    assert(bb.subrange(p as int, posi + wlen)[cl] == bb[p + cl]);
                                    assert(wire_payload(w).subrange(0, cl) =~= items_bytes(els@));
                                    assert(bb[p + cl] == wire_payload(w)[cl]);
                                    assert(items_match_at(bb, p as int, els@));
                                }
                                _ => {
                                    assert(false);
                                }
                            }
                        }
                        assert forall|w: OwnedValue|
                            (#[trigger] match_at(bb, posi, w)) && height(w) > dc + 1 implies e
                            == Error::RecursionLimit by {
                            lemma_wire_shape(bb, posi, w);
                            lemma_wire_decompose(w);
                            match w {
                                OwnedValue::IndefiniteArray(els2) => {
                                    let cl = items_bytes(els2@).len() as int;
                                    let wlen = wire_bytes(w).len() as int;
                                    assert(wire_payload(w) == bb.subrange(p as int, posi + wlen));
                                    assert(bb.subrange(p as int, p + cl) =~= wire_payload(
                                        w,
                                    ).subrange(0, cl));
                                    assert(bb.subrange(p as int, posi + wlen)[cl] == bb[p + cl]);
                                    assert(wire_payload(w).subrange(0, cl) =~= items_bytes(
                                        els2@,
                                    ));
                                    assert(bb[p + cl] == wire_payload(w)[cl]);
                                    assert(items_match_at(bb, p as int, els2@));
                                    assert(items_height(els2@) > dc);
                                }
                                _ => {
                                    assert(false);
                                }
                            }
                        }
                    }
                    Err(e)
                }
                Ok((els, n)) => {
                    let v = OwnedValue::IndefiniteArray(els);
                    proof {
                        assert forall|w: OwnedValue|
                            (#[trigger] match_at(bb, posi, w)) && height(w) > dc + 1 implies false by {
                            lemma_wire_shape(bb, posi, w);
                            lemma_wire_decompose(w);
                            match w {
                                OwnedValue::IndefiniteArray(els2) => {
                                    let cl = items_bytes(els2@).len() as int;
                                    let wlen = wire_bytes(w).len() as int;
                                    assert(wire_payload(w) == bb.subrange(p as int, posi + wlen));
                                    assert(bb.subrange(p as int, p + cl) =~= wire_payload(
                                        w,
                                    ).subrange(0, cl));
                                    assert(bb.subrange(p as int, posi + wlen)[cl] == bb[p + cl]);
                                    assert(wire_payload(w).subrange(0, cl) =~= items_bytes(
                                        els2@,
                                    ));
                                    assert(bb[p + cl] == wire_payload(w)[cl]);
                                    assert(items_match_at(bb, p as int, els2@));
                                    assert(items_height(els2@) > dc);
                                }
                                _ => {
                                    assert(false);
                                }
                            }
                        }
                        assert(els@.skip(0) =~= els@);
                        assert(bb.subrange(posi, n as int) =~= bb.subrange(posi, p as int)
                            + bb.subrange(p as int, n - 1) + seq![bb[n - 1]]);
                        assert(wire_bytes(v) == seq![0x9fu8] + items_bytes(els@) + seq![0xffu8]);
                        assert(head_bytes(4, MinorType::Indefinite) =~= seq![0x9fu8]);
                        assert(bb.subrange(posi, n as int) =~= wire_bytes(v));
                        assert forall|w: OwnedValue|
                            (#[trigger] match_at(bb, posi, w)) && height(w) <= (dc + 1) implies
                            same_item(v, w) && n == pos + wire_bytes(w).len() by {
                            lemma_wire_shape(bb, posi, w);
                            lemma_wire_decompose(w);
                            match w {
                                OwnedValue::IndefiniteArray(ws) => {
                                    let cl = items_bytes(ws@).len() as int;
                                    let wlen = wire_bytes(w).len() as int;
                                    assert(wire_payload(w) == bb.subrange(p as int, posi + wlen));
                                    assert(bb.subrange(p as int, p + cl) =~= wire_payload(
                                        w,
                                    ).subrange(0, cl));
                                    assert(bb.subrange(p as int, posi + wlen)[cl] == bb[p + cl]);
                                    assert(wire_payload(w).subrange(0, cl) =~= items_bytes(ws@));
                                    assert(bb[p + cl] == wire_payload(w)[cl]);
                                    assert(items_match_at(bb, p as int, ws@));
                                    assert(items_height(ws@) <= dc);
                                    assert(same_items(els@, ws@));
                                }
                                _ => {
                                    assert(false);
                                }
                            }
                        }
                    }
                    Ok((v, n))
                }
            }
        } else {
            let count: u64 = m.value();
            match parse_items(b, p, count, dc, Vec::new()) {
                Err(e) => {
                    proof {
                        assert forall|w: OwnedValue|
                            (#[trigger] match_at(bb, posi, w)) && height(w) <= (dc + 1) implies false
                            by {
                            lemma_wire_shape(bb, posi, w);
                            lemma_wire_decompose(w);
                            match w {
                                OwnedValue::Array(mw, els) => {
                                    assert(items_match_at(bb, p as int, els@));
                                    assert(items_height(els@) <= dc);
                                }
                                _ => {
                                    assert(false);
                                }
                            }
                        }
                        assert forall|w: OwnedValue|
                            (#[trigger] match_at(bb, posi, w)) && height(w) > dc + 1 implies e
                            == Error::RecursionLimit by {
                            lemma_wire_shape(bb, posi, w);
                            lemma_wire_decompose(w);
                            match w {
                                OwnedValue::Array(mw2, els2) => {
                                    assert(items_match_at(bb, p as int, els2@));
                                    assert(items_height(els2@) > dc);
                                }
                                _ => {
                                    assert(false);
                                }
                            }
                        }
                    }
                    Err(e)
                }
                Ok((els, n)) => {
                    let v = OwnedValue::Array(m, els);
                    proof {
                        assert forall|w: OwnedValue|
                            (#[trigger] match_at(bb, posi, w)) && height(w) > dc + 1 implies false by {
                            lemma_wire_shape(bb, posi, w);
                            lemma_wire_decompose(w);
                            match w {
                                OwnedValue::Array(mw2, els2) => {
                                    assert(items_match_at(bb, p as int, els2@));
                                    assert(items_height(els2@) > dc);
                                }
                                _ => {
                                    assert(false);
                                }
                            }
                        }
                        assert(els@.skip(0) =~= els@);
                        assert(bb.subrange(posi, n as int) =~= bb.subrange(posi, p as int)
                            + bb.subrange(p as int, n as int));
                        assert(wire_bytes(v) == head_bytes(4, m) + items_bytes(els@));
                        assert(bb.subrange(posi, n as int) == wire_bytes(v));
                        assert forall|w: OwnedValue|
                            (#[trigger] match_at(bb, posi, w)) && height(w) <= (dc + 1) implies
                            same_item(v, w) && n == pos + wire_bytes(w).len() by {
                            lemma_wire_shape(bb, posi, w);
                            lemma_wire_decompose(w);
                            match w {
                                OwnedValue::Array(mw, ws) => {
                                    assert(items_match_at(bb, p as int, ws@));
                                    assert(items_height(ws@) <= dc);
                                    assert(same_items(els@, ws@));
                                }
                                _ => {
                                    assert(false);
                                }
                            }
                        }
                    }
                    Ok((v, n))
                }
            }
        }
}

/// Reads the rest of a map item whose head has already been read; its
/// keys and values may nest at most `dc` deep.
#[verifier::rlimit(100)]
#[verifier::spinoff_prover]
fn parse_map_tail(b: &[u8], pos: usize, p: usize, m: MinorType, dc: u32) -> (r: Result<
    (OwnedValue, usize),
    Error,
>)
    requires
        pos <= b@.len(),
        sp_head(b@, pos as int) == Ok::<(u8, MinorType, int), Error>((5, m, p as int)),
        pos < p <= b@.len(),
    ensures
        (r matches Ok((v, n)) ==> wf(v) && height(v) <= dc + 1 && pos < n <= b@.len()
            && b@.subrange(pos as int, n as int) == wire_bytes(v)),
        forall|w: OwnedValue|
            (#[trigger] match_at(b@, pos as int, w)) && height(w) <= dc + 1 ==> (r matches Ok(
                (v, n),
            ) && same_item(v, w) && n == pos + wire_bytes(w).len()),
        forall|w: OwnedValue|
            (#[trigger] match_at(b@, pos as int, w)) && height(w) > dc + 1 ==> r == Err::<
                (OwnedValue, usize),
                Error,
            >(Error::RecursionLimit),
    decreases dc, b@.len() - pos, 2nat,
{
    let ghost bb = b@;
    let ghost posi = pos as int;
    let major: u8 = 5;
    proof {
        lemma_sp_head_to_bytes(bb, posi, major, m, p as int);
    }
        if let MinorType::Indefinite = m {
            match parse_pairs_indef(b, p, dc, Vec::new()) {
                Err(e) => {
                    proof {
                        assert forall|w: OwnedValue|
                            (#[trigger] match_at(bb, posi, w)) && height(w) <= (dc + 1) implies false
                            by {
                            lemma_wire_shape(bb, posi, w);
                            lemma_wire_decompose(w);
                            match w {
                                OwnedValue::IndefiniteMapping(ps) => {
                                    let cl = pairs_bytes(ps@).len() as int;
                                    let wlen = wire_bytes(w).len() as int;
                                    assert(wire_payload(w) == bb.subrange(p as int, posi + wlen));
                                    assert(bb.subrange(p as int, p + cl) =~= wire_payload(
                                        w,
                                    ).subrange(0, cl));
                                    assert(bb.subrange(p as int, posi + wlen)[cl] == bb[p + cl]);
                                    assert(wire_payload(w).subrange(0, cl) =~= pairs_bytes(ps@));
                                    assert(bb[p + cl] == wire_payload(w)[cl]);
                                    assert(pairs_match_at(bb, p as int, ps@));
                                }
                                _ => {
                                    assert(false);
                                }
                            }
                        }
                        assert forall|w: OwnedValue|
                            (#[trigger] match_at(bb, posi, w)) && height(w) > dc + 1 implies e
                            == Error::RecursionLimit by {
                            lemma_wire_shape(bb, posi, w);
                            lemma_wire_decompose(w);
                            match w {
                                OwnedValue::IndefiniteMapping(ps2) => {
                                    let cl = pairs_bytes(ps2@).len() as int;
                                    let wlen = wire_bytes(w).len() as int;
                                    assert(wire_payload(w) == bb.subrange(p as int, posi + wlen));
                                    assert(bb.subrange(p as int, p + cl) =~= wire_payload(
                                        w,
                                    ).subrange(0, cl));
                                    assert(bb.subrange(p as int, posi + wlen)[cl] == bb[p + cl]);
                                    assert(wire_payload(w).subrange(0, cl) =~= pairs_bytes(ps2@));
                                    assert(bb[p + cl] == wire_payload(w)[cl]);
                                    assert(pairs_match_at(bb, p as int, ps2@));
                                    assert(pairs_height(ps2@) > dc);
                                }
                                _ => {
                                    assert(false);
                                }
                            }
                        }
                    }
                    Err(e)
                }
                Ok((els, n)) => {
                    let v = OwnedValue::IndefiniteMapping(els);
                    proof {
                        assert forall|w: OwnedValue|
                            (#[trigger] match_at(bb, posi, w)) && height(w) > dc + 1 implies false by {
                            lemma_wire_shape(bb, posi, w);
                            lemma_wire_decompose(w);
                            match w {
                                OwnedValue::IndefiniteMapping(ps2) => {
                                    let cl = pairs_bytes(ps2@).len() as int;
                                    let wlen = wire_bytes(w).len() as int;
                                    assert(wire_payload(w) == bb.subrange(p as int, posi + wlen));
                                    assert(bb.subrange(p as int, p + cl) =~= wire_payload(
                                        w,
                                    ).subrange(0, cl));
                                    assert(bb.subrange(p as int, posi + wlen)[cl] == bb[p + cl]);
                                    assert(wire_payload(w).subrange(0, cl) =~= pairs_bytes(ps2@));
                                    assert(bb[p + cl] == wire_payload(w)[cl]);
                                    assert(pairs_match_at(bb, p as int, ps2@));
                                    assert(pairs_height(ps2@) > dc);
                                }
                                _ => {
                                    assert(false);
                                }
                            }
                        }
                        assert(els@.skip(0) =~= els@);
                        assert(bb.subrange(posi, n as int) =~= bb.subrange(posi, p as int)
                            + bb.subrange(p as int, n - 1) + seq![bb[n - 1]]);
                        assert(wire_bytes(v) == seq![0xbfu8] + pairs_bytes(els@) + seq![0xffu8]);
                        assert(head_bytes(5, MinorType::Indefinite) =~= seq![0xbfu8]);
                        assert(bb.subrange(posi, n as int) =~= wire_bytes(v));
                        assert forall|w: OwnedValue|
                            (#[trigger] match_at(bb, posi, w)) && height(w) <= (dc + 1) implies
                            same_item(v, w) && n == pos + wire_bytes(w).len() by {
                            lemma_wire_shape(bb, posi, w);
                            lemma_wire_decompose(w);
                            match w {
                                OwnedValue::IndefiniteMapping(ws) => {
                                    let cl = pairs_bytes(ws@).len() as int;
                                    let wlen = wire_bytes(w).len() as int;
                                    assert(wire_payload(w) == bb.subrange(p as int, posi + wlen));
                                    assert(bb.subrange(p as int, p + cl) =~= wire_payload(
                                        w,
                                    ).subrange(0, cl));
                                    assert(bb.subrange(p as int, posi + wlen)[cl] == bb[p + cl]);
                                    assert(wire_payload(w).subrange(0, cl) =~= pairs_bytes(ws@));
                                    assert(bb[p + cl] == wire_payload(w)[cl]);
                                    assert(pairs_match_at(bb, p as int, ws@));
                                    assert(pairs_height(ws@) <= dc);
                                    assert(same_pairs(els@, ws@));
                                }
                                _ => {
                                    assert(false);
                                }
                            }
                        }
                    }
                    Ok((v, n))
                }
            }
        } else {
            let count: u64 = m.value();
            match parse_pairs(b, p, count, dc, Vec::new()) {
                Err(e) => {
                    proof {
                        assert forall|w: OwnedValue|
                            (#[trigger] match_at(bb, posi, w)) && height(w) <= (dc + 1) implies false
                            by {
                            lemma_wire_shape(bb, posi, w);
                            lemma_wire_decompose(w);
                            match w {
                                OwnedValue::Mapping(mw, ps) => {
                                    assert(pairs_match_at(bb, p as int, ps@));
                                    assert(pairs_height(ps@) <= dc);
                                }
                                _ => {
                                    assert(false);
                                }
                            }
                        }
                        assert forall|w: OwnedValue|
                            (#[trigger] match_at(bb, posi, w)) && height(w) > dc + 1 implies e
                            == Error::RecursionLimit by {
                            lemma_wire_shape(bb, posi, w);
                            lemma_wire_decompose(w);
                            match w {
                                OwnedValue::Mapping(mw2, ps2) => {
                                    assert(pairs_match_at(bb, p as int, ps2@));
                                    assert(pairs_height(ps2@) > dc);
                                }
                                _ => {
                                    assert(false);
                                }
                            }
                        }
                    }
                    Err(e)
                }
                Ok((els, n)) => {
                    let v = OwnedValue::Mapping(m, els);
                    proof {
                        assert forall|w: OwnedValue|
                            (#[trigger] match_at(bb, posi, w)) && height(w) > dc + 1 implies false by {
                            lemma_wire_shape(bb, posi, w);
                            lemma_wire_decompose(w);
                            match w {
                                OwnedValue::Mapping(mw2, ps2) => {
                                    assert(pairs_match_at(bb, p as int, ps2@));
                                    assert(pairs_height(ps2@) > dc);
                                }
                                _ => {
                                    assert(false);
                                }
                            }
                        }
                        assert(els@.skip(0) =~= els@);
                        assert(bb.subrange(posi, n as int) =~= bb.subrange(posi, p as int)
                            + bb.subrange(p as int, n as int));
                        assert(wire_bytes(v) == head_bytes(5, m) + pairs_bytes(els@));
                        assert(bb.subrange(posi, n as int) == wire_bytes(v));
                        assert forall|w: OwnedValue|
                            (#[trigger] match_at(bb, posi, w)) && height(w) <= (dc + 1) implies
                            same_item(v, w) && n == pos + wire_bytes(w).len() by {
                            lemma_wire_shape(bb, posi, w);
                            lemma_wire_decompose(w);
                            match w {
                                OwnedValue::Mapping(mw, ws) => {
                                    assert(pairs_match_at(bb, p as int, ws@));
                                    assert(pairs_height(ws@) <= dc);
                                    assert(same_pairs(els@, ws@));
                                }
                                _ => {
                                    assert(false);
                                }
                            }
                        }
                    }
                    Ok((v, n))
                }
            }
        }
}

/// Reads the rest of a major-type-7 item whose head has already been
/// read.
#[verifier::rlimit(100)]
#[verifier::spinoff_prover]
fn parse_simple_tail(b: &[u8], pos: usize, p: usize, m: MinorType, depth: u32) -> (r: Result<
    (OwnedValue, usize),
    Error,
>)
    requires
        pos <= b@.len(),
        sp_head(b@, pos as int) == Ok::<(u8, MinorType, int), Error>((7, m, p as int)),
        pos < p <= b@.len(),
    ensures
        (r matches Ok((v, n)) ==> wf(v) && height(v) <= depth && pos < n <= b@.len()
            && b@.subrange(pos as int, n as int) == wire_bytes(v)),
        forall|w: OwnedValue|
            (#[trigger] match_at(b@, pos as int, w)) && height(w) <= depth ==> (r matches Ok(
                (v, n),
            ) && same_item(v, w) && n == pos + wire_bytes(w).len()),
        m is Indefinite ==> r == Err::<(OwnedValue, usize), Error>(Error::UnexpectedBreak),
        (m matches MinorType::OneByte(x) && x < 32) ==> r == Err::<(OwnedValue, usize), Error>(
            Error::MalformedHead,
        ),
{
    let ghost bb = b@;
    let ghost posi = pos as int;
    let major: u8 = 7;
    proof {
        lemma_sp_head_to_bytes(bb, posi, major, m, p as int);
    }
        match m {
            MinorType::SameByte(d) => {
                let v = if d == 20 {
                    OwnedValue::False
                } else if d == 21 {
                    OwnedValue::True
                } else if d == 22 {
                    OwnedValue::Null
                } else if d == 23 {
                    OwnedValue::Undefined
                } else {
                    OwnedValue::Simple(d)
                };
                proof {
                    assert(wire_minor(v) == MinorType::SameByte(d));
                    assert(wire_bytes(v) =~= head_bytes(7, MinorType::SameByte(d)));
                    assert forall|w: OwnedValue|
                        (#[trigger] match_at(bb, posi, w)) && height(w) <= depth implies same_item(
                        v,
                        w,
                    ) && p == pos + wire_bytes(w).len() by {
                        lemma_wire_shape(bb, posi, w);
                        lemma_wire_decompose(w);
                        assert(wire_major(w) == 7 && wire_minor(w) == MinorType::SameByte(d));
                        match w {
                            OwnedValue::False => {}
                            OwnedValue::True => {}
                            OwnedValue::Null => {}
                            OwnedValue::Undefined => {}
                            OwnedValue::Simple(dw) => {
                                assert(wire_payload(w) =~= Seq::<u8>::empty());
                            }
                            _ => {
                                assert(false);
                            }
                        }
                    }
                }
                Ok((v, p))
            }
            MinorType::OneByte(x) => {
                if x < 32 {
                    proof {
                        assert forall|w: OwnedValue|
                            (#[trigger] match_at(bb, posi, w)) && height(w) <= depth implies false
                            by {
                            lemma_wire_shape(bb, posi, w);
                            match w {
                                OwnedValue::Simple(dw) => {}
                                _ => {
                                    assert(false);
                                }
                            }
                        }
                    }
                    return Err(Error::MalformedHead);
                }
                let v = OwnedValue::Simple(x);
                proof {
                    assert(wire_bytes(v) =~= head_bytes(7, MinorType::OneByte(x)));
                    assert forall|w: OwnedValue|
                        (#[trigger] match_at(bb, posi, w)) && height(w) <= depth implies same_item(
                        v,
                        w,
                    ) && p == pos + wire_bytes(w).len() by {
                        lemma_wire_shape(bb, posi, w);
                        lemma_wire_decompose(w);
                        match w {
                            OwnedValue::Simple(dw) => {
                                assert(wire_payload(w) =~= Seq::<u8>::empty());
                            }
                            _ => {
                                assert(false);
                            }
                        }
                    }
                }
                Ok((v, p))
            }
            MinorType::TwoBytes(x) => {
                let v = OwnedValue::HalfFloat(x);
                proof {
                    assert(wire_bytes(v) =~= head_bytes(7, MinorType::TwoBytes(x)));
                    assert forall|w: OwnedValue|
                        (#[trigger] match_at(bb, posi, w)) && height(w) <= depth implies same_item(
                        v,
                        w,
                    ) && p == pos + wire_bytes(w).len() by {
                        lemma_wire_shape(bb, posi, w);
                        lemma_wire_decompose(w);
                        match w {
                            OwnedValue::HalfFloat(xw) => {
                                assert(wire_payload(w) =~= Seq::<u8>::empty());
                            }
                            _ => {
                                assert(false);
                            }
                        }
                    }
                }
                Ok((v, p))
            }
            MinorType::FourBytes(x) => {
                let v = OwnedValue::SingleFloat(x);
                proof {
                    assert(wire_bytes(v) =~= head_bytes(7, MinorType::FourBytes(x)));
                    assert forall|w: OwnedValue|
                        (#[trigger] match_at(bb, posi, w)) && height(w) <= depth implies same_item(
                        v,
                        w,
                    ) && p == pos + wire_bytes(w).len() by {
                        lemma_wire_shape(bb, posi, w);
                        lemma_wire_decompose(w);
                        match w {
                            OwnedValue::SingleFloat(xw) => {
                                assert(wire_payload(w) =~= Seq::<u8>::empty());
                            }
                            _ => {
                                assert(false);
                            }
                        }
                    }
                }
                Ok((v, p))
            }
            MinorType::EightBytes(x) => {
                let v = OwnedValue::DoubleFloat(x);
                proof {
                    assert(wire_bytes(v) =~= head_bytes(7, MinorType::EightBytes(x)));
                    assert forall|w: OwnedValue|
                        (#[trigger] match_at(bb, posi, w)) && height(w) <= depth implies same_item(
                        v,
                        w,
                    ) && p == pos + wire_bytes(w).len() by {
                        lemma_wire_shape(bb, posi, w);
                        lemma_wire_decompose(w);
                        match w {
                            OwnedValue::DoubleFloat(xw) => {
                                assert(wire_payload(w) =~= Seq::<u8>::empty());
                            }
                            _ => {
                                assert(false);
                            }
                        }
                    }
                }
                Ok((v, p))
            }
            MinorType::Indefinite => {
                proof {
                    assert forall|w: OwnedValue|
                        (#[trigger] match_at(bb, posi, w)) && height(w) <= depth implies false by {
                        lemma_wire_shape(bb, posi, w);
                        lemma_no_break_item(w);
                    }
                }
                Err(Error::UnexpectedBreak)
            }
            MinorType::Reserved(x) => {
                proof {
                    assert(false);
                }
                Err(Error::MalformedHead)
            }
        }
}

/// Reads one complete item starting at `pos`.
///
/// On success the returned item is well-formed, nests at most `depth`
/// containers and tags deep, and re-serializes to exactly the bytes that
/// were consumed. Conversely, wherever a well-formed item of height at
/// most `depth` stands at `pos`, the read succeeds and returns an item
/// with the same content, consuming exactly the item's bytes.
#[verifier::rlimit(100)]
#[verifier::spinoff_prover]
pub fn parse_item(b: &[u8], pos: usize, depth: u32) -> (r: Result<(OwnedValue, usize), Error>)
    requires
        pos <= b@.len(),
    ensures
        (r matches Ok((v, n)) ==> wf(v) && height(v) <= depth && pos < n <= b@.len()
            && b@.subrange(pos as int, n as int) == wire_bytes(v)),
        forall|w: OwnedValue|
            (#[trigger] match_at(b@, pos as int, w)) && height(w) <= depth ==> (r matches Ok(
                (v, n),
            ) && same_item(v, w) && n == pos + wire_bytes(w).len()),
        (sp_head(b@, pos as int) matches Err(e) ==> r == Err::<(OwnedValue, usize), Error>(e)),
        (sp_head(b@, pos as int) matches Ok((mj, m, p)) && (mj == 0 || mj == 1 || mj == 6) && (
        m is Indefinite) ==> r == Err::<(OwnedValue, usize), Error>(Error::MalformedHead)),
        (sp_head(b@, pos as int) matches Ok((mj, m, p)) && mj == 7 && (m is Indefinite) ==> r
            == Err::<(OwnedValue, usize), Error>(Error::UnexpectedBreak)),
        (sp_head(b@, pos as int) matches Ok((mj, m, p)) && mj == 7 && (m matches
        MinorType::OneByte(x) && x < 32) ==> r == Err::<(OwnedValue, usize), Error>(
            Error::MalformedHead,
        )),
        (sp_head(b@, pos as int) matches Ok((mj, m, p)) && (mj == 2 || mj == 3) && minor_numeric(
            m,
        ) && p + minor_value(m) > b@.len() ==> r == Err::<(OwnedValue, usize), Error>(
            Error::UnexpectedEof,
        )),
        (sp_head(b@, pos as int) matches Ok((mj, m, p)) && mj == 3 && minor_numeric(m) && p
            + minor_value(m) <= b@.len() && !valid_utf8(b@.subrange(p, p + minor_value(m))) ==> r
            == Err::<(OwnedValue, usize), Error>(Error::InvalidUtf8)),
        (sp_head(b@, pos as int) matches Ok((mj, m, p)) && mj == 3 && (m is Indefinite) && (exists|
            cs: Seq<(MinorType, Vec<u8>)>,
        |
            chunks_match_at(b@, p, 3, cs) && !valid_utf8(chunks_payload(cs))) ==> r == Err::<
            (OwnedValue, usize),
            Error,
        >(Error::InvalidUtf8)),
        (sp_head(b@, pos as int) matches Ok((mj, m, p)) && depth == 0 && (mj == 4 || mj == 5 || (
        mj == 6 && minor_numeric(m))) ==> r == Err::<(OwnedValue, usize), Error>(
            Error::RecursionLimit,
        )),
        forall|w: OwnedValue|
            (#[trigger] match_at(b@, pos as int, w)) && height(w) > depth ==> r == Err::<
                (OwnedValue, usize),
                Error,
            >(Error::RecursionLimit),
    decreases depth, b@.len() - pos, 0nat,
{
    let ghost bb = b@;
    let ghost posi = pos as int;
    let (major, m, p) = match parse_head(b, pos) {
        Ok(t) => t,
        Err(e) => {
            proof {
                assert forall|w: OwnedValue| (#[trigger] match_at(bb, posi, w)) implies false by {
                    lemma_wire_shape(bb, posi, w);
                }
            }
            return Err(e);
        }
    };
    proof {
        lemma_sp_head_to_bytes(bb, posi, major, m, p as int);
    }
    if major == 0 {
        if let MinorType::Indefinite = m {
            proof {
                assert forall|w: OwnedValue| (#[trigger] match_at(bb, posi, w)) implies false by {
                    lemma_wire_shape(bb, posi, w);
                    lemma_no_break_item(w);
                }
            }
            return Err(Error::MalformedHead);
        }
        let v = OwnedValue::Unsigned(m);
        proof {
            assert forall|w: OwnedValue|
                (#[trigger] match_at(bb, posi, w)) && height(w) > depth implies false by {
                lemma_wire_shape(bb, posi, w);
                lemma_tall_item_is_container(w);
            }
            assert(wire_bytes(v) =~= head_bytes(0, m));
            assert forall|w: OwnedValue|
                (#[trigger] match_at(bb, posi, w)) && height(w) <= depth implies same_item(v, w)
                && p == pos + wire_bytes(w).len() by {
                lemma_wire_shape(bb, posi, w);
                lemma_wire_decompose(w);
                match w {
                    OwnedValue::Unsigned(mw) => {
                        assert(wire_payload(w) =~= Seq::<u8>::empty());
                    }
                    _ => {
                        assert(false);
                    }
                }
            }
        }
        Ok((v, p))
    } else if major == 1 {
        if let MinorType::Indefinite = m {
            proof {
                assert forall|w: OwnedValue| (#[trigger] match_at(bb, posi, w)) implies false by {
                    lemma_wire_shape(bb, posi, w);
                }
            }
            return Err(Error::MalformedHead);
        }
        let v = OwnedValue::Negative(m);
        proof {
            assert forall|w: OwnedValue|
                (#[trigger] match_at(bb, posi, w)) && height(w) > depth implies false by {
                lemma_wire_shape(bb, posi, w);
                lemma_tall_item_is_container(w);
            }
            assert(wire_bytes(v) =~= head_bytes(1, m));
            assert forall|w: OwnedValue|
                (#[trigger] match_at(bb, posi, w)) && height(w) <= depth implies same_item(v, w)
                && p == pos + wire_bytes(w).len() by {
                lemma_wire_shape(bb, posi, w);
                lemma_wire_decompose(w);
                match w {
                    OwnedValue::Negative(mw) => {
                        assert(wire_payload(w) =~= Seq::<u8>::empty());
                    }
                    _ => {
                        assert(false);
                    }
                }
            }
        }
        Ok((v, p))
    } else if major == 2 || major == 3 {
        let r = parse_string_tail(b, pos, p, m, major, depth);
        proof {
            assert forall|w: OwnedValue|
                (#[trigger] match_at(bb, posi, w)) && height(w) > depth implies false by {
                lemma_wire_shape(bb, posi, w);
                lemma_tall_item_is_container(w);
            }
        }
        r
    } else if major == 4 {
        if depth == 0 {
            proof {
                assert forall|w: OwnedValue|
                    (#[trigger] match_at(bb, posi, w)) && height(w) <= depth implies false by {
                    lemma_wire_shape(bb, posi, w);
                    match w {
                        OwnedValue::Array(mw, els) => {}
                        OwnedValue::IndefiniteArray(els) => {}
                        _ => {
                            assert(false);
                        }
                    }
                }
            }
            return Err(Error::RecursionLimit);
        }
        parse_array_tail(b, pos, p, m, depth - 1)
    } else if major == 5 {
        if depth == 0 {
            proof {
                assert forall|w: OwnedValue|
                    (#[trigger] match_at(bb, posi, w)) && height(w) <= depth implies false by {
                    lemma_wire_shape(bb, posi, w);
                    match w {
                        OwnedValue::Mapping(mw, ps) => {}
                        OwnedValue::IndefiniteMapping(ps) => {}
                        _ => {
                            assert(false);
                        }
                    }
                }
            }
            return Err(Error::RecursionLimit);
        }
        parse_map_tail(b, pos, p, m, depth - 1)
    } else if major == 6 {
        if let MinorType::Indefinite = m {
            proof {
                assert forall|w: OwnedValue| (#[trigger] match_at(bb, posi, w)) implies false by {
                    lemma_wire_shape(bb, posi, w);
                }
            }
            return Err(Error::MalformedHead);
        }
        if depth == 0 {
            proof {
                assert forall|w: OwnedValue|
                    (#[trigger] match_at(bb, posi, w)) && height(w) <= depth implies false by {
                    lemma_wire_shape(bb, posi, w);
                    match w {
                        OwnedValue::Tag(mw, inner) => {}
                        _ => {
                            assert(false);
                        }
                    }
                }
            }
            return Err(Error::RecursionLimit);
        }
        match parse_item(b, p, depth - 1) {
            Err(e) => {
                proof {
                    assert forall|w: OwnedValue|
                        (#[trigger] match_at(bb, posi, w)) && height(w) <= depth implies false by {
                        lemma_wire_shape(bb, posi, w);
                        lemma_wire_decompose(w);
                        match w {
                            OwnedValue::Tag(mw, inner) => {
                                assert(match_at(bb, p as int, *inner));
                            }
                            _ => {
                                assert(false);
                            }
                        }
                    }
                    assert forall|w: OwnedValue|
                        (#[trigger] match_at(bb, posi, w)) && height(w) > depth implies e
                        == Error::RecursionLimit by {
                        lemma_wire_shape(bb, posi, w);
                        lemma_wire_decompose(w);
                        match w {
                            OwnedValue::Tag(mw, inner) => {
                                assert(match_at(bb, p as int, *inner));
                                assert(height(*inner) > depth - 1);
                            }
                            _ => {
                                assert(false);
                            }
                        }
                    }
                }
                Err(e)
            }
            Ok((iv, n)) => {
                let v = OwnedValue::Tag(m, Box::new(iv));
                proof {
                    assert forall|w: OwnedValue|
                        (#[trigger] match_at(bb, posi, w)) && height(w) > depth implies false by {
                        lemma_wire_shape(bb, posi, w);
                        lemma_wire_decompose(w);
                        match w {
                            OwnedValue::Tag(mw, inner) => {
                                assert(match_at(bb, p as int, *inner));
                                assert(height(*inner) > depth - 1);
                            }
                            _ => {
                                assert(false);
                            }
                        }
                    }
                    assert(bb.subrange(posi, n as int) =~= bb.subrange(posi, p as int)
                        + bb.subrange(p as int, n as int));
                    assert(wire_bytes(v) == head_bytes(6, m) + wire_bytes(iv));
                    assert(bb.subrange(posi, n as int) == wire_bytes(v));
                    assert forall|w: OwnedValue|
                        (#[trigger] match_at(bb, posi, w)) && height(w) <= depth implies same_item(
                        v,
                        w,
                    ) && n == pos + wire_bytes(w).len() by {
                        lemma_wire_shape(bb, posi, w);
                        lemma_wire_decompose(w);
                        match w {
                            OwnedValue::Tag(mw, inner) => {
                                assert(match_at(bb, p as int, *inner));
                                assert(height(*inner) <= depth - 1);
                                assert(same_item(iv, *inner));
                            }
                            _ => {
                                assert(false);
                            }
                        }
                    }
                }
                Ok((v, n))
            }
        }
    } else {
        let r = parse_simple_tail(b, pos, p, m, depth);
        proof {
            assert forall|w: OwnedValue|
                (#[trigger] match_at(bb, posi, w)) && height(w) > depth implies false by {
                lemma_wire_shape(bb, posi, w);
                lemma_tall_item_is_container(w);
            }
        }
        r
    }
}

} // verus!
