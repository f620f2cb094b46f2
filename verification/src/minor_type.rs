use vstd::prelude::*;

verus! {

/// How the argument of a CBOR head is carried: packed into the head byte
/// itself (0-23), in one, two, four or eight following big-endian bytes,
/// as the indefinite-length marker (31), or one of the reserved
/// additional-information values 28-30.
#[derive(Copy, Clone, Debug, PartialEq, Eq, Structural)]
pub enum MinorType {
    /// The argument is the additional-information field itself, 0 to 23.
    SameByte(u8),
    /// The argument follows in one byte.
    OneByte(u8),
    /// The argument follows in two big-endian bytes.
    TwoBytes(u16),
    /// The argument follows in four big-endian bytes.
    FourBytes(u32),
    /// The argument follows in eight big-endian bytes.
    EightBytes(u64),
    /// No argument: the length is indefinite and a break ends the item.
    Indefinite,
    /// One of the reserved additional-information values 28-30.
    Reserved(u8),
}

/// The two big-endian bytes of a 16-bit value.
pub open spec fn be16_bytes(v: u16) -> Seq<u8> {
    seq![(v / 256) as u8, (v % 256) as u8]
}

/// The four big-endian bytes of a 32-bit value: its upper half followed
/// by its lower half.
pub open spec fn be32_bytes(v: u32) -> Seq<u8> {
    be16_bytes((v / 0x10000) as u16) + be16_bytes((v % 0x10000) as u16)
}

/// The eight big-endian bytes of a 64-bit value: its upper half followed
/// by its lower half.
pub open spec fn be64_bytes(v: u64) -> Seq<u8> {
    be32_bytes((v / 0x100000000) as u32) + be32_bytes((v % 0x100000000) as u32)
}

/// The additional-information field (the low five bits of the head byte)
/// that announces this argument width.
pub open spec fn minor_ai(m: MinorType) -> u8 {
    match m {
        MinorType::SameByte(x) => x,
        MinorType::OneByte(_) => 24,
        MinorType::TwoBytes(_) => 25,
        MinorType::FourBytes(_) => 26,
        MinorType::EightBytes(_) => 27,
        MinorType::Indefinite => 31,
        MinorType::Reserved(x) => x,
    }
}

/// The bytes that follow the head byte to carry the argument.
pub open spec fn minor_arg_bytes(m: MinorType) -> Seq<u8> {
    match m {
        MinorType::SameByte(_) => Seq::<u8>::empty(),
        MinorType::OneByte(x) => seq![x],
        MinorType::TwoBytes(x) => be16_bytes(x),
        MinorType::FourBytes(x) => be32_bytes(x),
        MinorType::EightBytes(x) => be64_bytes(x),
        MinorType::Indefinite => Seq::<u8>::empty(),
        MinorType::Reserved(_) => Seq::<u8>::empty(),
    }
}

/// The argument value itself: a length, a count, a tag number or an
/// integer payload. Only meaningful for the numeric widths.
pub open spec fn minor_value(m: MinorType) -> u64 {
    match m {
        MinorType::SameByte(x) => x as u64,
        MinorType::OneByte(x) => x as u64,
        MinorType::TwoBytes(x) => x as u64,
        MinorType::FourBytes(x) => x as u64,
        MinorType::EightBytes(x) => x,
        MinorType::Indefinite => 0,
        MinorType::Reserved(_) => 0,
    }
}

/// A width that actually carries an argument value, with the packed form
/// restricted to its legal range.
pub open spec fn minor_numeric(m: MinorType) -> bool {
    match m {
        MinorType::SameByte(x) => x < 24,
        MinorType::OneByte(_) => true,
        MinorType::TwoBytes(_) => true,
        MinorType::FourBytes(_) => true,
        MinorType::EightBytes(_) => true,
        MinorType::Indefinite => false,
        MinorType::Reserved(_) => false,
    }
}

/// The canonical width for an argument: the shortest of the five numeric
/// forms that can carry it.
pub open spec fn spec_size(v: u64) -> MinorType {
    if v < 24 {
        MinorType::SameByte(v as u8)
    } else if v <= 0xFF {
        MinorType::OneByte(v as u8)
    } else if v <= 0xFFFF {
        MinorType::TwoBytes(v as u16)
    } else if v <= 0xFFFF_FFFF {
        MinorType::FourBytes(v as u32)
    } else {
        MinorType::EightBytes(v)
    }
}

/// The canonical width always carries the value it was built for.
pub broadcast proof fn lemma_spec_size_value(v: u64)
    ensures
        minor_numeric(#[trigger] spec_size(v)),
        minor_value(spec_size(v)) == v,
{
}

impl MinorType {
    /// The canonical head width for the size of a string, array or map:
    /// the shortest form that fits.
    pub fn size(v: usize) -> (r: MinorType)
        ensures
            r == spec_size(v as u64),
    {
        MinorType::size64(v as u64)
    }

    /// The canonical head width for a 64-bit argument, such as a tag
    /// number: the shortest form that fits.
    pub fn size64(v: u64) -> (r: MinorType)
        ensures
            r == spec_size(v),
    {
        if v < 24 {
            MinorType::SameByte(v as u8)
        } else if v <= 0xFF {
            MinorType::OneByte(v as u8)
        } else if v <= 0xFFFF {
            MinorType::TwoBytes(v as u16)
        } else if v <= 0xFFFF_FFFF {
            MinorType::FourBytes(v as u32)
        } else {
            MinorType::EightBytes(v)
        }
    }

    /// The additional-information field that announces this width.
    pub fn minor(&self) -> (r: u8)
        ensures
            r == minor_ai(*self),
    {
        match self {
            MinorType::SameByte(x) => *x,
            MinorType::OneByte(_) => 24,
            MinorType::TwoBytes(_) => 25,
            MinorType::FourBytes(_) => 26,
            MinorType::EightBytes(_) => 27,
            MinorType::Indefinite => 31,
            MinorType::Reserved(x) => *x,
        }
    }

    /// The argument value this width carries.
    pub fn value(&self) -> (r: u64)
        ensures
            r == minor_value(*self),
    {
        match self {
            MinorType::SameByte(x) => *x as u64,
            MinorType::OneByte(x) => *x as u64,
            MinorType::TwoBytes(x) => *x as u64,
            MinorType::FourBytes(x) => *x as u64,
            MinorType::EightBytes(x) => *x,
            MinorType::Indefinite => 0,
            MinorType::Reserved(_) => 0,
        }
    }
}

/// Appends the argument bytes of a width to a buffer.
pub fn push_minor_arg(out: &mut Vec<u8>, m: MinorType)
    ensures
        final(out)@ == old(out)@ + minor_arg_bytes(m),
{
    match m {
        MinorType::SameByte(_) => {
            assert(out@ =~= old(out)@ + minor_arg_bytes(m));
        }
        MinorType::OneByte(x) => {
            out.push(x);
            assert(out@ =~= old(out)@ + minor_arg_bytes(m));
        }
        MinorType::TwoBytes(x) => {
            out.push((x / 256) as u8);
            out.push((x % 256) as u8);
            assert(out@ =~= old(out)@ + minor_arg_bytes(m));
        }
        MinorType::FourBytes(x) => {
            let hi: u16 = (x / 0x10000) as u16;
            let lo: u16 = (x % 0x10000) as u16;
            out.push((hi / 256) as u8);
            out.push((hi % 256) as u8);
            out.push((lo / 256) as u8);
            out.push((lo % 256) as u8);
            assert(out@ =~= old(out)@ + minor_arg_bytes(m));
        }
        MinorType::EightBytes(x) => {
            let hi: u32 = (x / 0x100000000) as u32;
            let lo: u32 = (x % 0x100000000) as u32;
            let h1: u16 = (hi / 0x10000) as u16;
            let h2: u16 = (hi % 0x10000) as u16;
            let h3: u16 = (lo / 0x10000) as u16;
            let h4: u16 = (lo % 0x10000) as u16;
            out.push((h1 / 256) as u8);
            out.push((h1 % 256) as u8);
            out.push((h2 / 256) as u8);
            out.push((h2 % 256) as u8);
            out.push((h3 / 256) as u8);
            out.push((h3 % 256) as u8);
            out.push((h4 / 256) as u8);
            out.push((h4 % 256) as u8);
            assert(out@ =~= old(out)@ + minor_arg_bytes(m));
        }
        MinorType::Indefinite => {
            assert(out@ =~= old(out)@ + minor_arg_bytes(m));
        }
        MinorType::Reserved(_) => {
            assert(out@ =~= old(out)@ + minor_arg_bytes(m));
        }
    }
}

} // verus!
