use vstd::prelude::*;

use crate::error::WriteError;
use crate::major_type::{major_encoding, major_has_reserved, MajorType};
use crate::minor_type::MinorType;
use crate::owned;
use crate::owned::{wire_bytes, OwnedValue};

verus! {

/// A sink for serialized bytes. A write either delivers the whole buffer
/// or reports a failure having delivered nothing.
pub trait Write {
    /// The bytes the sink has taken so far.
    spec fn sink(&self) -> Seq<u8>;

    /// Takes a whole buffer of bytes.
    fn write(&mut self, bytes: &[u8]) -> (r: Result<usize, WriteError>)
        ensures
            r matches Ok(n) ==> n == bytes@.len() && final(self).sink() == old(self).sink()
                + bytes@,
            r is Err ==> final(self).sink() == old(self).sink(),
    ;
}

impl Write for Vec<u8> {
    open spec fn sink(&self) -> Seq<u8> {
        self@
    }

    fn write(&mut self, bytes: &[u8]) -> (r: Result<usize, WriteError>)
        ensures
            r matches Ok(n) ==> n == bytes@.len() && final(self).sink() == old(self).sink()
                + bytes@,
            r is Err ==> final(self).sink() == old(self).sink(),
    {
        self.extend_from_slice(bytes);
        Ok(bytes.len())
    }
}

/// A type that knows its own byte serialization and can hand it to any
/// sink.
pub trait WriteTo {
    /// The bytes this value serializes to.
    spec fn enc(&self) -> Seq<u8>;

    /// How many bytes the serialization takes.
    fn len(&self) -> (r: usize)
        ensures
            r == self.enc().len(),
    ;

    /// Whether the serialization is empty.
    fn is_empty(&self) -> (r: bool)
        ensures
            r == (self.enc().len() == 0),
    ;

    /// Writes the serialization to the sink. On success the sink took
    /// exactly those bytes; on failure it took nothing.
    fn write_to<W: Write>(&self, w: &mut W) -> (r: Result<usize, WriteError>)
        ensures
            r matches Ok(n) ==> n == self.enc().len() && final(w).sink() == old(w).sink()
                + self.enc(),
            r is Err ==> final(w).sink() == old(w).sink(),
    ;
}

impl WriteTo for MajorType {
    open spec fn enc(&self) -> Seq<u8> {
        major_encoding(*self)
    }

    fn len(&self) -> (r: usize)
        ensures
            r == self.enc().len(),
    {
        let mut out: Vec<u8> = Vec::new();
        let _ = self.push_encoding(&mut out);
        // A reserved width refuses to serialize; its encoding is its head
        // byte alone.
        proof {
            if major_has_reserved(*self) {
                assert(major_encoding(*self).len() == 1);
            }
        }
        if out.len() == 0 {
            1
        } else {
            out.len()
        }
    }

    fn is_empty(&self) -> (r: bool)
        ensures
            r == (self.enc().len() == 0),
    {
        proof {
            assert(major_encoding(*self).len() >= 1);
        }
        false
    }

    fn write_to<W: Write>(&self, w: &mut W) -> (r: Result<usize, WriteError>)
        ensures
            r matches Ok(n) ==> n == self.enc().len() && final(w).sink() == old(w).sink()
                + self.enc(),
            r is Err ==> final(w).sink() == old(w).sink(),
            major_has_reserved(*self) ==> r == Err::<usize, WriteError>(
                WriteError::ReservedCborValue,
            ),
    {
        let mut out: Vec<u8> = Vec::new();
        match self.push_encoding(&mut out) {
            Ok(()) => w.write(out.as_slice()),
            Err(e) => Err(e),
        }
    }
}

impl WriteTo for OwnedValue {
    open spec fn enc(&self) -> Seq<u8> {
        wire_bytes(*self)
    }

    fn len(&self) -> (r: usize)
        ensures
            r == self.enc().len(),
    {
        OwnedValue::len(self)
    }

    fn is_empty(&self) -> (r: bool)
        ensures
            r == (self.enc().len() == 0),
    {
        OwnedValue::is_empty(self)
    }

    fn write_to<W: Write>(&self, w: &mut W) -> (r: Result<usize, WriteError>)
        ensures
            r matches Ok(n) ==> n == self.enc().len() && final(w).sink() == old(w).sink()
                + self.enc(),
            r is Err ==> final(w).sink() == old(w).sink(),
    {
        let out = self.to_vec();
        w.write(out.as_slice())
    }
}

/// A plain serializer: it forwards items to the sink as they come,
/// without checking that they assemble into one complete document. Pair
/// every indefinite-length head with a break, and every raw array or map
/// head with the announced number of items, or the output will not be
/// valid CBOR.
pub struct Serializer<W: Write> {
    writer: W,
}

impl<W: Write> Serializer<W> {
    /// The bytes the underlying sink has taken.
    pub closed spec fn sink(&self) -> Seq<u8> {
        self.writer.sink()
    }

    /// Wraps a sink.
    pub fn new(writer: W) -> (r: Serializer<W>)
        ensures
            r.sink() == writer.sink(),
    {
        Serializer { writer }
    }

    /// Hands the sink back.
    pub fn into_inner(self) -> (r: W)
        ensures
            r.sink() == self.sink(),
    {
        self.writer
    }

    /// Writes one complete item.
    pub fn value(&mut self, v: &OwnedValue) -> (r: Result<(), WriteError>)
        ensures
            r is Ok ==> final(self).sink() == old(self).sink() + wire_bytes(*v),
            r is Err ==> final(self).sink() == old(self).sink(),
    {
        let out = v.to_vec();
        match self.writer.write(out.as_slice()) {
            Ok(_) => Ok(()),
            Err(e) => Err(e),
        }
    }

    /// Writes the break that ends an indefinite-length item.
    pub fn write_break(&mut self) -> (r: Result<(), WriteError>)
        ensures
            r is Ok ==> final(self).sink() == old(self).sink() + seq![0xffu8],
            r is Err ==> final(self).sink() == old(self).sink(),
    {
        let mut out: Vec<u8> = Vec::new();
        out.push(0xff);
        match self.writer.write(out.as_slice()) {
            Ok(_) => Ok(()),
            Err(e) => Err(e),
        }
    }

    /// Writes an array head announcing `length` elements, which the
    /// caller must then write.
    pub fn raw_array(&mut self, length: usize) -> (r: Result<(), WriteError>)
        ensures
            r is Ok ==> final(self).sink() == old(self).sink() + major_encoding(
                MajorType::Array(crate::minor_type::spec_size(length as u64)),
            ),
            r is Err ==> final(self).sink() == old(self).sink(),
    {
        self.head(MajorType::Array(MinorType::size(length)))
    }

    /// Writes a map head announcing `length` pairs, which the caller
    /// must then write.
    pub fn raw_map(&mut self, length: usize) -> (r: Result<(), WriteError>)
        ensures
            r is Ok ==> final(self).sink() == old(self).sink() + major_encoding(
                MajorType::Mapping(crate::minor_type::spec_size(length as u64)),
            ),
            r is Err ==> final(self).sink() == old(self).sink(),
    {
        self.head(MajorType::Mapping(MinorType::size(length)))
    }

    /// Writes a tag head; the caller must then write the tagged item.
    pub fn raw_tag(&mut self, tag: u64) -> (r: Result<(), WriteError>)
        ensures
            r is Ok ==> final(self).sink() == old(self).sink() + major_encoding(
                MajorType::Tag(crate::minor_type::spec_size(tag)),
            ),
            r is Err ==> final(self).sink() == old(self).sink(),
    {
        self.head(MajorType::Tag(MinorType::size64(tag)))
    }

    /// Opens an indefinite-length byte string; write definite byte
    /// string chunks, then a break.
    pub fn indefinite_bytes(&mut self) -> (r: Result<(), WriteError>)
        ensures
            r is Ok ==> final(self).sink() == old(self).sink() + seq![0x5fu8],
            r is Err ==> final(self).sink() == old(self).sink(),
    {
        self.head(MajorType::ByteString(MinorType::Indefinite))
    }

    /// Opens an indefinite-length text string; write definite text
    /// string chunks, then a break.
    pub fn indefinite_text(&mut self) -> (r: Result<(), WriteError>)
        ensures
            r is Ok ==> final(self).sink() == old(self).sink() + seq![0x7fu8],
            r is Err ==> final(self).sink() == old(self).sink(),
    {
        self.head(MajorType::Text(MinorType::Indefinite))
    }

    /// Opens an indefinite-length array; write items, then a break.
    pub fn indefinite_array(&mut self) -> (r: Result<(), WriteError>)
        ensures
            r is Ok ==> final(self).sink() == old(self).sink() + seq![0x9fu8],
            r is Err ==> final(self).sink() == old(self).sink(),
    {
        self.head(MajorType::Array(MinorType::Indefinite))
    }

    /// Opens an indefinite-length map; write keys and values, then a
    /// break.
    pub fn indefinite_map(&mut self) -> (r: Result<(), WriteError>)
        ensures
            r is Ok ==> final(self).sink() == old(self).sink() + seq![0xbfu8],
            r is Err ==> final(self).sink() == old(self).sink(),
    {
        self.head(MajorType::Mapping(MinorType::Indefinite))
    }

    /// Writes a definite-length text string: its canonical head, then
    /// its UTF-8 bytes.
    pub fn text(&mut self, s: &str) -> (r: Result<(), WriteError>)
        ensures
            r is Ok ==> final(self).sink() == old(self).sink() + crate::major_type::head_bytes(
                3,
                crate::minor_type::spec_size(vstd::utf8::encode_utf8(s@).len() as u64),
            ) + vstd::utf8::encode_utf8(s@),
            r is Err ==> final(self).sink() == old(self).sink(),
    {
        let v = owned::text(s);
        proof {
            assert(wire_bytes(v) == crate::major_type::head_bytes(
                3,
                crate::minor_type::spec_size(vstd::utf8::encode_utf8(s@).len() as u64),
            ) + vstd::utf8::encode_utf8(s@));
        }
        self.value(&v)
    }

    /// Writes a definite-length byte string.
    pub fn bytes(&mut self, b: &[u8]) -> (r: Result<(), WriteError>)
        ensures
            r is Ok ==> final(self).sink() == old(self).sink() + crate::major_type::head_bytes(
                2,
                crate::minor_type::spec_size(b@.len() as u64),
            ) + b@,
            r is Err ==> final(self).sink() == old(self).sink(),
    {
        let v = owned::bytes(b);
        proof {
            assert(wire_bytes(v) == crate::major_type::head_bytes(
                2,
                crate::minor_type::spec_size(b@.len() as u64),
            ) + b@);
        }
        self.value(&v)
    }

    fn head(&mut self, t: MajorType) -> (r: Result<(), WriteError>)
        ensures
            r is Ok ==> final(self).sink() == old(self).sink() + major_encoding(t),
            r is Err ==> final(self).sink() == old(self).sink(),
    {
        let mut out: Vec<u8> = Vec::new();
        match t.push_encoding(&mut out) {
            Ok(()) => {
                match self.writer.write(out.as_slice()) {
                    Ok(_) => Ok(()),
                    Err(e) => Err(e),
                }
            }
            Err(e) => Err(e),
        }
    }
}

} // verus!
