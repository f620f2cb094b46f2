use vstd::prelude::*;

use crate::error::WriteError;
use crate::minor_type::{MinorType, be16_bytes, be32_bytes, be64_bytes, minor_ai, minor_arg_bytes, push_minor_arg};

verus! {

/// The head of a CBOR item: the major type together with its
/// additional-information payload, plus the major-7 leaves that carry
/// their whole payload in the head.
#[derive(Copy, Clone, Debug, PartialEq, Eq, Structural)]
pub enum MajorType {
    /// Major type 0: an unsigned integer; the argument is its value.
    UnsignedInteger(MinorType),
    /// Major type 1: a negative integer; an argument of `n` encodes `-1-n`.
    NegativeInteger(MinorType),
    /// Major type 2: a byte string; the argument is its length in bytes.
    ByteString(MinorType),
    /// Major type 3: a UTF-8 text string; the argument is its length in
    /// bytes.
    Text(MinorType),
    /// Major type 4: an array; the argument is the element count.
    Array(MinorType),
    /// Major type 5: a map; the argument is the pair count.
    Mapping(MinorType),
    /// Major type 6: a semantic tag; the argument is the tag number.
    Tag(MinorType),
    /// Major type 7, subtype 20.
    False,
    /// Major type 7, subtype 21.
    True,
    /// Major type 7, subtype 22.
    Null,
    /// Major type 7, subtype 23.
    Undefined,
    /// Major type 7, subtype 25: a half-precision float, kept as its bits.
    HalfFloat(u16),
    /// Major type 7, subtype 26: a single-precision float, kept as its bits.
    SingleFloat(u32),
    /// Major type 7, subtype 27: a double-precision float, kept as its bits.
    DoubleFloat(u64),
    /// Major type 7, any other subtype: an unassigned simple value.
    UnassignedSimpleData(u8),
    /// Major type 7, subtype 31: the break stop code.
    Break,
}

/// The first byte of a head: three bits of major type, five bits of
/// additional information.
pub open spec fn head_byte(major: u8, ai: u8) -> u8 {
    (major * 32 + (ai % 32)) as u8
}

/// The bytes of a whole head: the head byte followed by the argument
/// bytes of its width.
pub open spec fn head_bytes(major: u8, m: MinorType) -> Seq<u8> {
    seq![head_byte(major, minor_ai(m))] + minor_arg_bytes(m)
}

/// The byte encoding of a head, including the payload of the major-7
/// leaves. A reserved width contributes its head byte alone.
pub open spec fn major_encoding(t: MajorType) -> Seq<u8> {
    match t {
        MajorType::UnsignedInteger(m) => head_bytes(0, m),
        MajorType::NegativeInteger(m) => head_bytes(1, m),
        MajorType::ByteString(m) => head_bytes(2, m),
        MajorType::Text(m) => head_bytes(3, m),
        MajorType::Array(m) => head_bytes(4, m),
        MajorType::Mapping(m) => head_bytes(5, m),
        MajorType::Tag(m) => head_bytes(6, m),
        MajorType::False => seq![0xf4u8],
        MajorType::True => seq![0xf5u8],
        MajorType::Null => seq![0xf6u8],
        MajorType::Undefined => seq![0xf7u8],
        MajorType::HalfFloat(v) => seq![0xf9u8] + be16_bytes(v),
        MajorType::SingleFloat(v) => seq![0xfau8] + be32_bytes(v),
        MajorType::DoubleFloat(v) => seq![0xfbu8] + be64_bytes(v),
        MajorType::UnassignedSimpleData(d) => if d >= 32 {
            seq![0xf8u8, d]
        } else {
            seq![head_byte(7, d)]
        },
        MajorType::Break => seq![0xffu8],
    }
}

/// Whether the head carries one of the reserved widths 28-30, which have
/// no byte encoding.
pub open spec fn major_has_reserved(t: MajorType) -> bool {
    match t {
        MajorType::UnsignedInteger(m) => m is Reserved,
        MajorType::NegativeInteger(m) => m is Reserved,
        MajorType::ByteString(m) => m is Reserved,
        MajorType::Text(m) => m is Reserved,
        MajorType::Array(m) => m is Reserved,
        MajorType::Mapping(m) => m is Reserved,
        MajorType::Tag(m) => m is Reserved,
        _ => false,
    }
}

/// Appends `head_bytes(major, m)` to the buffer. A reserved width
/// contributes its head byte alone, matching its empty argument bytes.
pub fn push_head_raw(out: &mut Vec<u8>, major: u8, m: MinorType)
    requires
        major <= 7,
    ensures
        final(out)@ == old(out)@ + head_bytes(major, m),
{
    let ai = m.minor() % 32;
    out.push(major * 32 + ai);
    push_minor_arg(out, m);
    assert(out@ =~= old(out)@ + head_bytes(major, m));
}

/// Appends `head_bytes(major, m)` to the buffer, or reports the reserved
/// width without writing anything.
fn push_head(out: &mut Vec<u8>, major: u8, m: MinorType) -> (r: Result<(), WriteError>)
    requires
        major <= 7,
    ensures
        r is Ok ==> final(out)@ == old(out)@ + head_bytes(major, m),
        r is Err ==> final(out)@ == old(out)@ && m is Reserved && r == Err::<(), WriteError>(
            WriteError::ReservedCborValue,
        ),
        (r is Err) == (m is Reserved),
{
    if let MinorType::Reserved(_) = m {
        return Err(WriteError::ReservedCborValue);
    }
    push_head_raw(out, major, m);
    Ok(())
}

impl MajorType {
    /// Appends the byte encoding of this head to the buffer. Fails, and
    /// writes nothing, exactly when the head carries a reserved width.
    pub fn push_encoding(&self, out: &mut Vec<u8>) -> (r: Result<(), WriteError>)
        ensures
            r is Ok ==> final(out)@ == old(out)@ + major_encoding(*self),
            r is Err ==> final(out)@ == old(out)@ && r == Err::<(), WriteError>(
                WriteError::ReservedCborValue,
            ),
            (r is Err) == major_has_reserved(*self),
    {
        match self {
            MajorType::UnsignedInteger(m) => push_head(out, 0, *m),
            MajorType::NegativeInteger(m) => push_head(out, 1, *m),
            MajorType::ByteString(m) => push_head(out, 2, *m),
            MajorType::Text(m) => push_head(out, 3, *m),
            MajorType::Array(m) => push_head(out, 4, *m),
            MajorType::Mapping(m) => push_head(out, 5, *m),
            MajorType::Tag(m) => push_head(out, 6, *m),
            MajorType::False => {
                out.push(0xf4);
                assert(out@ =~= old(out)@ + major_encoding(*self));
                Ok(())
            }
            MajorType::True => {
                out.push(0xf5);
                assert(out@ =~= old(out)@ + major_encoding(*self));
                Ok(())
            }
            MajorType::Null => {
                out.push(0xf6);
                assert(out@ =~= old(out)@ + major_encoding(*self));
                Ok(())
            }
            MajorType::Undefined => {
                out.push(0xf7);
                assert(out@ =~= old(out)@ + major_encoding(*self));
                Ok(())
            }
            MajorType::HalfFloat(v) => {
                out.push(0xf9);
                push_minor_arg(out, MinorType::TwoBytes(*v));
                assert(out@ =~= old(out)@ + major_encoding(*self));
                Ok(())
            }
            MajorType::SingleFloat(v) => {
                out.push(0xfa);
                push_minor_arg(out, MinorType::FourBytes(*v));
                assert(out@ =~= old(out)@ + major_encoding(*self));
                Ok(())
            }
            MajorType::DoubleFloat(v) => {
                out.push(0xfb);
                push_minor_arg(out, MinorType::EightBytes(*v));
                assert(out@ =~= old(out)@ + major_encoding(*self));
                Ok(())
            }
            MajorType::UnassignedSimpleData(d) => {
                if *d >= 32 {
                    out.push(0xf8);
                    out.push(*d);
                } else {
                    out.push(7 * 32 + *d);
                }
                assert(out@ =~= old(out)@ + major_encoding(*self));
                Ok(())
            }
            MajorType::Break => {
                out.push(0xff);
                assert(out@ =~= old(out)@ + major_encoding(*self));
                Ok(())
            }
        }
    }
}

} // verus!
