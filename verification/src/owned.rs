use vstd::prelude::*;

use crate::major_type::{head_byte, head_bytes, push_head_raw};
use crate::minor_type::{minor_numeric, minor_value, spec_size, MinorType};
use vstd::string::StrSliceExecFns;
use vstd::utf8::{encode_utf8, valid_utf8};

verus! {

broadcast use {crate::minor_type::lemma_spec_size_value, vstd::utf8::encode_utf8_valid_utf8};

/// One CBOR item as it stands on the wire, together with everything it
/// contains. Integer items remember the width their argument was written
/// with, so a value read from bytes re-serializes to exactly those bytes;
/// the builder functions below always pick the canonical (shortest) width.
#[derive(Debug, PartialEq)]
pub enum OwnedValue {
    /// Major type 0: an unsigned integer, the argument of its width.
    Unsigned(MinorType),
    /// Major type 1: a width whose argument `n` stands for `-1-n`.
    Negative(MinorType),
    /// Major type 2, definite length: the length width and the bytes.
    Bytes(MinorType, Vec<u8>),
    /// Major type 3, definite length: the length width and the UTF-8
    /// bytes of the text.
    Text(MinorType, Vec<u8>),
    /// Major type 4, definite length: the count width and the elements.
    Array(MinorType, Vec<OwnedValue>),
    /// Major type 5, definite length: the count width and the pairs, in
    /// wire order.
    Mapping(MinorType, Vec<(OwnedValue, OwnedValue)>),
    /// Major type 2, indefinite length: definite chunks, each with its
    /// length width, ended by a break.
    IndefiniteBytes(Vec<(MinorType, Vec<u8>)>),
    /// Major type 3, indefinite length: definite chunks whose
    /// concatenation is the UTF-8 text.
    IndefiniteText(Vec<(MinorType, Vec<u8>)>),
    /// Major type 4, indefinite length: elements ended by a break.
    IndefiniteArray(Vec<OwnedValue>),
    /// Major type 5, indefinite length: pairs ended by a break.
    IndefiniteMapping(Vec<(OwnedValue, OwnedValue)>),
    /// Major type 6: the tag number's width and the tagged item.
    Tag(MinorType, Box<OwnedValue>),
    /// Major type 7, subtype 20.
    False,
    /// Major type 7, subtype 21.
    True,
    /// Major type 7, subtype 22.
    Null,
    /// Major type 7, subtype 23.
    Undefined,
    /// Major type 7, subtype 25: a half-precision float, as its bits.
    HalfFloat(u16),
    /// Major type 7, subtype 26: a single-precision float, as its bits.
    SingleFloat(u32),
    /// Major type 7, subtype 27: a double-precision float, as its bits.
    DoubleFloat(u64),
    /// Major type 7: an unassigned simple value.
    Simple(u8),
}

/// The exact bytes of an item on the wire.
pub open spec fn wire_bytes(v: OwnedValue) -> Seq<u8>
    decreases v,
{
    match v {
        OwnedValue::Unsigned(m) => head_bytes(0, m),
        OwnedValue::Negative(m) => head_bytes(1, m),
        OwnedValue::Bytes(m, b) => head_bytes(2, m) + b@,
        OwnedValue::Text(m, b) => head_bytes(3, m) + b@,
        OwnedValue::Array(m, els) => head_bytes(4, m) + items_bytes(els@),
        OwnedValue::Mapping(m, ps) => head_bytes(5, m) + pairs_bytes(ps@),
        OwnedValue::IndefiniteBytes(cs) => seq![0x5fu8] + chunks_bytes(2, cs@) + seq![0xffu8],
        OwnedValue::IndefiniteText(cs) => seq![0x7fu8] + chunks_bytes(3, cs@) + seq![0xffu8],
        OwnedValue::IndefiniteArray(els) => seq![0x9fu8] + items_bytes(els@) + seq![0xffu8],
        OwnedValue::IndefiniteMapping(ps) => seq![0xbfu8] + pairs_bytes(ps@) + seq![0xffu8],
        OwnedValue::Tag(m, inner) => head_bytes(6, m) + wire_bytes(*inner),
        OwnedValue::False => seq![0xf4u8],
        OwnedValue::True => seq![0xf5u8],
        OwnedValue::Null => seq![0xf6u8],
        OwnedValue::Undefined => seq![0xf7u8],
        OwnedValue::HalfFloat(b) => head_bytes(7, MinorType::TwoBytes(b)),
        OwnedValue::SingleFloat(b) => head_bytes(7, MinorType::FourBytes(b)),
        OwnedValue::DoubleFloat(b) => head_bytes(7, MinorType::EightBytes(b)),
        OwnedValue::Simple(d) => if d >= 32 {
            seq![0xf8u8, d]
        } else {
            seq![head_byte(7, d)]
        },
    }
}

/// The bytes of a run of items, one after the other.
pub open spec fn items_bytes(els: Seq<OwnedValue>) -> Seq<u8>
    decreases els,
{
    if els.len() == 0 {
        Seq::<u8>::empty()
    } else {
        wire_bytes(els[0]) + items_bytes(els.drop_first())
    }
}

/// The bytes of a run of key-value pairs, keys first.
pub open spec fn pairs_bytes(ps: Seq<(OwnedValue, OwnedValue)>) -> Seq<u8>
    decreases ps,
{
    if ps.len() == 0 {
        Seq::<u8>::empty()
    } else {
        wire_bytes(ps[0].0) + wire_bytes(ps[0].1) + pairs_bytes(ps.drop_first())
    }
}

/// The bytes of the definite chunks inside an indefinite-length string of
/// the given major type.
pub open spec fn chunks_bytes(major: u8, cs: Seq<(MinorType, Vec<u8>)>) -> Seq<u8>
    decreases cs,
{
    if cs.len() == 0 {
        Seq::<u8>::empty()
    } else {
        head_bytes(major, cs[0].0) + cs[0].1@ + chunks_bytes(major, cs.drop_first())
    }
}

/// What the chunks of an indefinite-length string assemble to.
pub open spec fn chunks_payload(cs: Seq<(MinorType, Vec<u8>)>) -> Seq<u8>
    decreases cs,
{
    if cs.len() == 0 {
        Seq::<u8>::empty()
    } else {
        cs[0].1@ + chunks_payload(cs.drop_first())
    }
}

/// A well-formed item: every width is numeric and agrees with the length,
/// count or payload it announces, text holds valid UTF-8, and simple
/// values keep away from the subtypes that mean something else.
pub open spec fn wf(v: OwnedValue) -> bool
    decreases v,
{
    match v {
        OwnedValue::Unsigned(m) => minor_numeric(m),
        OwnedValue::Negative(m) => minor_numeric(m),
        OwnedValue::Bytes(m, b) => minor_numeric(m) && minor_value(m) == b@.len(),
        OwnedValue::Text(m, b) => minor_numeric(m) && minor_value(m) == b@.len() && valid_utf8(
            b@,
        ),
        OwnedValue::Array(m, els) => minor_numeric(m) && minor_value(m) == els@.len() && wf_items(
            els@,
        ),
        OwnedValue::Mapping(m, ps) => minor_numeric(m) && minor_value(m) == ps@.len() && wf_pairs(
            ps@,
        ),
        OwnedValue::IndefiniteBytes(cs) => wf_chunks(cs@),
        OwnedValue::IndefiniteText(cs) => wf_chunks(cs@) && valid_utf8(chunks_payload(cs@)),
        OwnedValue::IndefiniteArray(els) => wf_items(els@),
        OwnedValue::IndefiniteMapping(ps) => wf_pairs(ps@),
        OwnedValue::Tag(m, inner) => minor_numeric(m) && wf(*inner),
        OwnedValue::Simple(d) => d <= 19 || d >= 32,
        _ => true,
    }
}

/// Every item of a run is well-formed.
pub open spec fn wf_items(els: Seq<OwnedValue>) -> bool
    decreases els,
{
    if els.len() == 0 {
        true
    } else {
        wf(els[0]) && wf_items(els.drop_first())
    }
}

/// Every key and value of a run of pairs is well-formed.
pub open spec fn wf_pairs(ps: Seq<(OwnedValue, OwnedValue)>) -> bool
    decreases ps,
{
    if ps.len() == 0 {
        true
    } else {
        wf(ps[0].0) && wf(ps[0].1) && wf_pairs(ps.drop_first())
    }
}

/// Every chunk announces exactly the length it holds.
pub open spec fn wf_chunks(cs: Seq<(MinorType, Vec<u8>)>) -> bool
    decreases cs,
{
    if cs.len() == 0 {
        true
    } else {
        minor_numeric(cs[0].0) && minor_value(cs[0].0) == cs[0].1@.len() && wf_chunks(
            cs.drop_first(),
        )
    }
}

/// How deeply containers and tags nest below this item. Strings, however
/// chunked, do not nest.
pub open spec fn height(v: OwnedValue) -> nat
    decreases v,
{
    match v {
        OwnedValue::Array(_, els) => 1 + items_height(els@),
        OwnedValue::Mapping(_, ps) => 1 + pairs_height(ps@),
        OwnedValue::IndefiniteArray(els) => 1 + items_height(els@),
        OwnedValue::IndefiniteMapping(ps) => 1 + pairs_height(ps@),
        OwnedValue::Tag(_, inner) => 1 + height(*inner),
        _ => 0,
    }
}

/// The greatest height among a run of items.
pub open spec fn items_height(els: Seq<OwnedValue>) -> nat
    decreases els,
{
    if els.len() == 0 {
        0
    } else {
        let h = height(els[0]);
        let rest = items_height(els.drop_first());
        if h >= rest {
            h
        } else {
            rest
        }
    }
}

/// The greatest height among the keys and values of a run of pairs.
pub open spec fn pairs_height(ps: Seq<(OwnedValue, OwnedValue)>) -> nat
    decreases ps,
{
    if ps.len() == 0 {
        0
    } else {
        let hk = height(ps[0].0);
        let hv = height(ps[0].1);
        let h = if hk >= hv {
            hk
        } else {
            hv
        };
        let rest = pairs_height(ps.drop_first());
        if h >= rest {
            h
        } else {
            rest
        }
    }
}

/// Extending a run of items by one appends that item's bytes.
pub proof fn lemma_items_bytes_snoc(els: Seq<OwnedValue>, i: int)
    requires
        0 <= i < els.len(),
    ensures
        items_bytes(els.take(i + 1)) == items_bytes(els.take(i)) + wire_bytes(els[i]),
    decreases i,
{
    if i == 0 {
        assert(els.take(1) =~= seq![els[0]]);
        assert(els.take(1).drop_first() =~= Seq::<OwnedValue>::empty());
        assert(els.take(0) =~= Seq::<OwnedValue>::empty());
        assert(items_bytes(els.take(i + 1)) =~= items_bytes(els.take(i)) + wire_bytes(els[i]));
    } else {
        lemma_items_bytes_snoc(els.drop_first(), i - 1);
        assert(els.take(i + 1).drop_first() =~= els.drop_first().take(i));
        assert(els.take(i).drop_first() =~= els.drop_first().take(i - 1));
        assert(els.take(i + 1)[0] == els[0]);
        assert(els.take(i)[0] == els[0]);
        assert(els.drop_first()[i - 1] == els[i]);
        assert(items_bytes(els.take(i + 1)) =~= items_bytes(els.take(i)) + wire_bytes(els[i]));
    }
}

/// Extending a run of pairs by one appends that pair's bytes.
pub proof fn lemma_pairs_bytes_snoc(ps: Seq<(OwnedValue, OwnedValue)>, i: int)
    requires
        0 <= i < ps.len(),
    ensures
        pairs_bytes(ps.take(i + 1)) == pairs_bytes(ps.take(i)) + wire_bytes(ps[i].0) + wire_bytes(
            ps[i].1,
        ),
    decreases i,
{
    if i == 0 {
        assert(ps.take(1) =~= seq![ps[0]]);
        assert(ps.take(1).drop_first() =~= Seq::<(OwnedValue, OwnedValue)>::empty());
        assert(ps.take(0) =~= Seq::<(OwnedValue, OwnedValue)>::empty());
        assert(pairs_bytes(ps.take(i + 1)) =~= pairs_bytes(ps.take(i)) + wire_bytes(ps[i].0)
            + wire_bytes(ps[i].1));
    } else {
        lemma_pairs_bytes_snoc(ps.drop_first(), i - 1);
        assert(ps.take(i + 1).drop_first() =~= ps.drop_first().take(i));
        assert(ps.take(i).drop_first() =~= ps.drop_first().take(i - 1));
        assert(ps.take(i + 1)[0] == ps[0]);
        assert(ps.take(i)[0] == ps[0]);
        assert(ps.drop_first()[i - 1] == ps[i]);
        assert(pairs_bytes(ps.take(i + 1)) =~= pairs_bytes(ps.take(i)) + wire_bytes(ps[i].0)
            + wire_bytes(ps[i].1));
    }
}

/// Extending a run of chunks by one appends that chunk's bytes.
pub proof fn lemma_chunks_bytes_snoc(major: u8, cs: Seq<(MinorType, Vec<u8>)>, i: int)
    requires
        0 <= i < cs.len(),
    ensures
        chunks_bytes(major, cs.take(i + 1)) == chunks_bytes(major, cs.take(i)) + head_bytes(
            major,
            cs[i].0,
        ) + cs[i].1@,
    decreases i,
{
    if i == 0 {
        assert(cs.take(1) =~= seq![cs[0]]);
        assert(cs.take(1).drop_first() =~= Seq::<(MinorType, Vec<u8>)>::empty());
        assert(cs.take(0) =~= Seq::<(MinorType, Vec<u8>)>::empty());
        assert(chunks_bytes(major, cs.take(i + 1)) =~= chunks_bytes(major, cs.take(i))
            + head_bytes(major, cs[i].0) + cs[i].1@);
    } else {
        lemma_chunks_bytes_snoc(major, cs.drop_first(), i - 1);
        assert(cs.take(i + 1).drop_first() =~= cs.drop_first().take(i));
        assert(cs.take(i).drop_first() =~= cs.drop_first().take(i - 1));
        assert(cs.take(i + 1)[0] == cs[0]);
        assert(cs.take(i)[0] == cs[0]);
        assert(cs.drop_first()[i - 1] == cs[i]);
        assert(chunks_bytes(major, cs.take(i + 1)) =~= chunks_bytes(major, cs.take(i))
            + head_bytes(major, cs[i].0) + cs[i].1@);
    }
}

fn encode_items(els: &Vec<OwnedValue>, out: &mut Vec<u8>)
    ensures
        final(out)@ == old(out)@ + items_bytes(els@),
    decreases *els,
{
    let ghost base = out@;
    assert(items_bytes(els@.take(0)) =~= Seq::<u8>::empty());
    for i in 0..els.len()
        invariant
            out@ == base + items_bytes(els@.take(i as int)),
    {
        proof {
            assert(decreases_to!(*els => els@));
            assert(decreases_to!(els@ => els@[i as int]));
        }
        els[i].encode_into(out);
        proof {
            lemma_items_bytes_snoc(els@, i as int);
            assert(out@ =~= base + items_bytes(els@.take(i + 1)));
        }
    }
    assert(els@.take(els@.len() as int) =~= els@);
}

fn encode_pairs(ps: &Vec<(OwnedValue, OwnedValue)>, out: &mut Vec<u8>)
    ensures
        final(out)@ == old(out)@ + pairs_bytes(ps@),
    decreases *ps,
{
    let ghost base = out@;
    assert(pairs_bytes(ps@.take(0)) =~= Seq::<u8>::empty());
    for i in 0..ps.len()
        invariant
            out@ == base + pairs_bytes(ps@.take(i as int)),
    {
        proof {
            assert(decreases_to!(*ps => ps@));
            assert(decreases_to!(ps@ => ps@[i as int]));
        }
        ps[i].0.encode_into(out);
        ps[i].1.encode_into(out);
        proof {
            lemma_pairs_bytes_snoc(ps@, i as int);
            assert(out@ =~= base + pairs_bytes(ps@.take(i + 1)));
        }
    }
    assert(ps@.take(ps@.len() as int) =~= ps@);
}

fn encode_chunks(major: u8, cs: &Vec<(MinorType, Vec<u8>)>, out: &mut Vec<u8>)
    requires
        major <= 7,
    ensures
        final(out)@ == old(out)@ + chunks_bytes(major, cs@),
{
    let ghost base = out@;
    assert(chunks_bytes(major, cs@.take(0)) =~= Seq::<u8>::empty());
    for i in 0..cs.len()
        invariant
            major <= 7,
            out@ == base + chunks_bytes(major, cs@.take(i as int)),
    {
        push_head_raw(out, major, cs[i].0);
        out.extend_from_slice(cs[i].1.as_slice());
        proof {
            lemma_chunks_bytes_snoc(major, cs@, i as int);
            assert(out@ =~= base + chunks_bytes(major, cs@.take(i + 1)));
        }
    }
    assert(cs@.take(cs@.len() as int) =~= cs@);
}

impl OwnedValue {
    /// Appends this item's exact wire bytes to a buffer.
    pub fn encode_into(&self, out: &mut Vec<u8>)
        ensures
            final(out)@ == old(out)@ + wire_bytes(*self),
        decreases *self,
    {
        match self {
            OwnedValue::Unsigned(m) => {
                push_head_raw(out, 0, *m);
            }
            OwnedValue::Negative(m) => {
                push_head_raw(out, 1, *m);
            }
            OwnedValue::Bytes(m, b) => {
                push_head_raw(out, 2, *m);
                out.extend_from_slice(b.as_slice());
                assert(out@ =~= old(out)@ + wire_bytes(*self));
            }
            OwnedValue::Text(m, b) => {
                push_head_raw(out, 3, *m);
                out.extend_from_slice(b.as_slice());
                assert(out@ =~= old(out)@ + wire_bytes(*self));
            }
            OwnedValue::Array(m, els) => {
                push_head_raw(out, 4, *m);
                proof {
                    assert(decreases_to!(*self => *els));
                }
                encode_items(els, out);
                assert(out@ =~= old(out)@ + wire_bytes(*self));
            }
            OwnedValue::Mapping(m, ps) => {
                push_head_raw(out, 5, *m);
                proof {
                    assert(decreases_to!(*self => *ps));
                }
                encode_pairs(ps, out);
                assert(out@ =~= old(out)@ + wire_bytes(*self));
            }
            OwnedValue::IndefiniteBytes(cs) => {
                out.push(0x5f);
                encode_chunks(2, cs, out);
                out.push(0xff);
                assert(out@ =~= old(out)@ + wire_bytes(*self));
            }
            OwnedValue::IndefiniteText(cs) => {
                out.push(0x7f);
                encode_chunks(3, cs, out);
                out.push(0xff);
                assert(out@ =~= old(out)@ + wire_bytes(*self));
            }
            OwnedValue::IndefiniteArray(els) => {
                out.push(0x9f);
                proof {
                    assert(decreases_to!(*self => *els));
                }
                encode_items(els, out);
                out.push(0xff);
                assert(out@ =~= old(out)@ + wire_bytes(*self));
            }
            OwnedValue::IndefiniteMapping(ps) => {
                out.push(0xbf);
                proof {
                    assert(decreases_to!(*self => *ps));
                }
                encode_pairs(ps, out);
                out.push(0xff);
                assert(out@ =~= old(out)@ + wire_bytes(*self));
            }
            OwnedValue::Tag(m, inner) => {
                push_head_raw(out, 6, *m);
                inner.encode_into(out);
                assert(out@ =~= old(out)@ + wire_bytes(*self));
            }
            OwnedValue::False => {
                out.push(0xf4);
                assert(out@ =~= old(out)@ + wire_bytes(*self));
            }
            OwnedValue::True => {
                out.push(0xf5);
                assert(out@ =~= old(out)@ + wire_bytes(*self));
            }
            OwnedValue::Null => {
                out.push(0xf6);
                assert(out@ =~= old(out)@ + wire_bytes(*self));
            }
            OwnedValue::Undefined => {
                out.push(0xf7);
                assert(out@ =~= old(out)@ + wire_bytes(*self));
            }
            OwnedValue::HalfFloat(b) => {
                push_head_raw(out, 7, MinorType::TwoBytes(*b));
            }
            OwnedValue::SingleFloat(b) => {
                push_head_raw(out, 7, MinorType::FourBytes(*b));
            }
            OwnedValue::DoubleFloat(b) => {
                push_head_raw(out, 7, MinorType::EightBytes(*b));
            }
            OwnedValue::Simple(d) => {
                if *d >= 32 {
                    out.push(0xf8);
                    out.push(*d);
                } else {
                    out.push(7 * 32 + *d);
                }
                assert(out@ =~= old(out)@ + wire_bytes(*self));
            }
        }
    }

    /// This item's exact wire bytes.
    pub fn to_vec(&self) -> (r: Vec<u8>)
        ensures
            r@ == wire_bytes(*self),
    {
        let mut out: Vec<u8> = Vec::new();
        self.encode_into(&mut out);
        out
    }

    /// How many bytes this item takes on the wire.
    pub fn len(&self) -> (r: usize)
        ensures
            r == wire_bytes(*self).len(),
    {
        self.to_vec().len()
    }

    /// Whether the item takes no bytes at all; every item has at least a
    /// head byte, so this never holds.
    pub fn is_empty(&self) -> (r: bool)
        ensures
            r == (wire_bytes(*self).len() == 0),
    {
        self.len() == 0
    }
}


/// A run of items is well-formed exactly when each item is.
pub proof fn lemma_wf_items_forall(els: Seq<OwnedValue>)
    ensures
        wf_items(els) <==> (forall|i: int| 0 <= i < els.len() ==> wf(#[trigger] els[i])),
    decreases els,
{
    if els.len() > 0 {
        lemma_wf_items_forall(els.drop_first());
        assert forall|i: int| 1 <= i < els.len() implies els.drop_first()[i - 1] == els[i] by {}
    }
}

/// A run of pairs is well-formed exactly when each key and value is.
pub proof fn lemma_wf_pairs_forall(ps: Seq<(OwnedValue, OwnedValue)>)
    ensures
        wf_pairs(ps) <==> (forall|i: int|
            0 <= i < ps.len() ==> wf(#[trigger] ps[i].0) && wf(ps[i].1)),
    decreases ps,
{
    if ps.len() > 0 {
        lemma_wf_pairs_forall(ps.drop_first());
        assert forall|i: int|
            1 <= i < ps.len() implies ps.drop_first()[i - 1] == ps[i] && (#[trigger] ps[i]).0
            == ps.drop_first()[i - 1].0 && ps[i].1 == ps.drop_first()[i - 1].1 by {}
        assert(wf_pairs(ps) == (wf(ps[0].0) && wf(ps[0].1) && wf_pairs(ps.drop_first())));
    }
}

/// A run of chunks is well-formed exactly when each chunk announces the
/// length it holds.
pub proof fn lemma_wf_chunks_forall(cs: Seq<(MinorType, Vec<u8>)>)
    ensures
        wf_chunks(cs) <==> (forall|i: int|
            0 <= i < cs.len() ==> minor_numeric(#[trigger] cs[i].0) && minor_value(cs[i].0)
                == cs[i].1@.len()),
    decreases cs,
{
    if cs.len() > 0 {
        lemma_wf_chunks_forall(cs.drop_first());
        assert forall|i: int| 1 <= i < cs.len() implies cs.drop_first()[i - 1] == cs[i] by {}
    }
}

/// If every chunk holds valid UTF-8, their concatenation does too.
pub proof fn lemma_chunks_payload_valid(cs: Seq<(MinorType, Vec<u8>)>)
    requires
        forall|i: int| 0 <= i < cs.len() ==> valid_utf8(#[trigger] cs[i].1@),
    ensures
        valid_utf8(chunks_payload(cs)),
    decreases cs,
{
    broadcast use vstd::utf8::valid_utf8_concat;

    if cs.len() == 0 {
        assert(chunks_payload(cs) =~= Seq::<u8>::empty());
    } else {
        assert forall|i: int| 0 <= i < cs.drop_first().len() implies valid_utf8(
            #[trigger] cs.drop_first()[i].1@,
        ) by {
            assert(cs.drop_first()[i] == cs[i + 1]);
        }
        lemma_chunks_payload_valid(cs.drop_first());
        assert(cs[0].1@ == cs.first().1@);
    }
}

/// The value 23, the largest argument that fits in the head byte itself.
pub open spec fn clamp_small(x: int) -> u8 {
    if x < 24 {
        x as u8
    } else {
        23u8
    }
}

/// A small unsigned integer packed into the head byte; values above 23
/// are clamped to 23.
pub fn usmall(v: u8) -> (r: OwnedValue)
    ensures
        r == OwnedValue::Unsigned(MinorType::SameByte(clamp_small(v as int))),
        wf(r),
{
    if v < 24 {
        OwnedValue::Unsigned(MinorType::SameByte(v))
    } else {
        OwnedValue::Unsigned(MinorType::SameByte(23))
    }
}

/// An unsigned integer written with a one-byte argument.
pub fn u8(v: u8) -> (r: OwnedValue)
    ensures
        r == OwnedValue::Unsigned(MinorType::OneByte(v)),
        wf(r),
{
    OwnedValue::Unsigned(MinorType::OneByte(v))
}

/// An unsigned integer written with a two-byte argument.
pub fn u16(v: u16) -> (r: OwnedValue)
    ensures
        r == OwnedValue::Unsigned(MinorType::TwoBytes(v)),
        wf(r),
{
    OwnedValue::Unsigned(MinorType::TwoBytes(v))
}

/// An unsigned integer written with a four-byte argument.
pub fn u32(v: u32) -> (r: OwnedValue)
    ensures
        r == OwnedValue::Unsigned(MinorType::FourBytes(v)),
        wf(r),
{
    OwnedValue::Unsigned(MinorType::FourBytes(v))
}

/// An unsigned integer written with an eight-byte argument.
pub fn u64(v: u64) -> (r: OwnedValue)
    ensures
        r == OwnedValue::Unsigned(MinorType::EightBytes(v)),
        wf(r),
{
    OwnedValue::Unsigned(MinorType::EightBytes(v))
}

/// An unsigned integer written with the canonical (shortest) width.
pub fn uint(v: u64) -> (r: OwnedValue)
    ensures
        r == OwnedValue::Unsigned(spec_size(v)),
        wf(r),
{
    OwnedValue::Unsigned(MinorType::size64(v))
}

/// A small negative integer `-1-v` packed into the head byte; arguments
/// above 23 are clamped to 23.
pub fn negative_usmall(v: u8) -> (r: OwnedValue)
    ensures
        r == OwnedValue::Negative(MinorType::SameByte(clamp_small(v as int))),
        wf(r),
{
    if v < 24 {
        OwnedValue::Negative(MinorType::SameByte(v))
    } else {
        OwnedValue::Negative(MinorType::SameByte(23))
    }
}

/// The negative integer `-1-v`, written with a one-byte argument.
pub fn negative_u8(v: u8) -> (r: OwnedValue)
    ensures
        r == OwnedValue::Negative(MinorType::OneByte(v)),
        wf(r),
{
    OwnedValue::Negative(MinorType::OneByte(v))
}

/// The negative integer `-1-v`, written with a two-byte argument.
pub fn negative_u16(v: u16) -> (r: OwnedValue)
    ensures
        r == OwnedValue::Negative(MinorType::TwoBytes(v)),
        wf(r),
{
    OwnedValue::Negative(MinorType::TwoBytes(v))
}

/// The negative integer `-1-v`, written with a four-byte argument.
pub fn negative_u32(v: u32) -> (r: OwnedValue)
    ensures
        r == OwnedValue::Negative(MinorType::FourBytes(v)),
        wf(r),
{
    OwnedValue::Negative(MinorType::FourBytes(v))
}

/// The negative integer `-1-v`, written with an eight-byte argument.
pub fn negative_u64(v: u64) -> (r: OwnedValue)
    ensures
        r == OwnedValue::Negative(MinorType::EightBytes(v)),
        wf(r),
{
    OwnedValue::Negative(MinorType::EightBytes(v))
}

/// The negative integer `-1-v`, written with the canonical width.
pub fn negative_uint(v: u64) -> (r: OwnedValue)
    ensures
        r == OwnedValue::Negative(spec_size(v)),
        wf(r),
{
    OwnedValue::Negative(MinorType::size64(v))
}

/// A small integer in `[-24, 23]` packed into the head byte; values
/// outside that range are clamped.
pub fn ismall(v: i8) -> (r: OwnedValue)
    ensures
        v < 0 ==> r == OwnedValue::Negative(MinorType::SameByte(clamp_small(-1 - v as int))),
        v >= 0 ==> r == OwnedValue::Unsigned(MinorType::SameByte(clamp_small(v as int))),
        wf(r),
{
    if v < 0 {
        negative_usmall((-(v + 1)) as u8)
    } else {
        usmall(v as u8)
    }
}

/// An integer in `[-128, 127]` written with a one-byte argument.
pub fn i8(v: i8) -> (r: OwnedValue)
    ensures
        v < 0 ==> r == OwnedValue::Negative(MinorType::OneByte((-1 - v as int) as u8)),
        v >= 0 ==> r == OwnedValue::Unsigned(MinorType::OneByte(v as u8)),
        wf(r),
{
    if v < 0 {
        negative_u8((-(v + 1)) as u8)
    } else {
        u8(v as u8)
    }
}

/// An integer in `[-32768, 32767]` written with a two-byte argument.
pub fn i16(v: i16) -> (r: OwnedValue)
    ensures
        v < 0 ==> r == OwnedValue::Negative(MinorType::TwoBytes((-1 - v as int) as u16)),
        v >= 0 ==> r == OwnedValue::Unsigned(MinorType::TwoBytes(v as u16)),
        wf(r),
{
    if v < 0 {
        negative_u16((-(v + 1)) as u16)
    } else {
        u16(v as u16)
    }
}

/// A 32-bit integer written with a four-byte argument.
pub fn i32(v: i32) -> (r: OwnedValue)
    ensures
        v < 0 ==> r == OwnedValue::Negative(MinorType::FourBytes((-1 - v as int) as u32)),
        v >= 0 ==> r == OwnedValue::Unsigned(MinorType::FourBytes(v as u32)),
        wf(r),
{
    if v < 0 {
        negative_u32((-(v + 1)) as u32)
    } else {
        u32(v as u32)
    }
}

/// A 64-bit integer written with an eight-byte argument.
pub fn i64(v: i64) -> (r: OwnedValue)
    ensures
        v < 0 ==> r == OwnedValue::Negative(MinorType::EightBytes((-1 - v as int) as u64)),
        v >= 0 ==> r == OwnedValue::Unsigned(MinorType::EightBytes(v as u64)),
        wf(r),
{
    if v < 0 {
        negative_u64((-(v + 1)) as u64)
    } else {
        u64(v as u64)
    }
}

/// A 64-bit integer written with the canonical (shortest) width: major
/// type 0 for `v >= 0`, major type 1 with argument `-1-v` otherwise.
pub fn integer(v: i64) -> (r: OwnedValue)
    ensures
        v < 0 ==> r == OwnedValue::Negative(spec_size((-1 - v as int) as u64)),
        v >= 0 ==> r == OwnedValue::Unsigned(spec_size(v as u64)),
        wf(r),
{
    if v < 0 {
        negative_uint((-(v + 1)) as u64)
    } else {
        uint(v as u64)
    }
}

/// The boolean simple values.
pub fn bool(v: bool) -> (r: OwnedValue)
    ensures
        r == if v {
            OwnedValue::True
        } else {
            OwnedValue::False
        },
        wf(r),
{
    if v {
        OwnedValue::True
    } else {
        OwnedValue::False
    }
}

/// The simple value `true`.
pub fn true_value() -> (r: OwnedValue)
    ensures
        r == OwnedValue::True,
        wf(r),
{
    OwnedValue::True
}

/// The simple value `false`.
pub fn false_value() -> (r: OwnedValue)
    ensures
        r == OwnedValue::False,
        wf(r),
{
    OwnedValue::False
}

/// The simple value `null`.
pub fn null() -> (r: OwnedValue)
    ensures
        r == OwnedValue::Null,
        wf(r),
{
    OwnedValue::Null
}

/// The simple value `undefined`.
pub fn undefined() -> (r: OwnedValue)
    ensures
        r == OwnedValue::Undefined,
        wf(r),
{
    OwnedValue::Undefined
}

/// A half-precision float, given as its 16 raw bits.
pub fn half_float_from_u16(v: u16) -> (r: OwnedValue)
    ensures
        r == OwnedValue::HalfFloat(v),
        wf(r),
{
    OwnedValue::HalfFloat(v)
}

/// A single-precision float, given as its 32 raw bits.
pub fn single_float_from_u32(bits: u32) -> (r: OwnedValue)
    ensures
        r == OwnedValue::SingleFloat(bits),
        wf(r),
{
    OwnedValue::SingleFloat(bits)
}

/// A double-precision float, given as its 64 raw bits.
pub fn double_float_from_u64(bits: u64) -> (r: OwnedValue)
    ensures
        r == OwnedValue::DoubleFloat(bits),
        wf(r),
{
    OwnedValue::DoubleFloat(bits)
}

/// An item wrapped in a semantic tag, the tag number written canonically.
pub fn tag(tag_number: u64, value: OwnedValue) -> (r: OwnedValue)
    ensures
        r == OwnedValue::Tag(spec_size(tag_number), Box::new(value)),
        wf(value) ==> wf(r),
{
    OwnedValue::Tag(MinorType::size64(tag_number), Box::new(value))
}

/// An item wrapped in the self-describe tag 55799, whose three bytes in
/// front of a document mark it as CBOR.
pub fn self_describe(value: OwnedValue) -> (r: OwnedValue)
    ensures
        r == OwnedValue::Tag(spec_size(55799), Box::new(value)),
        wf(value) ==> wf(r),
{
    tag(55799, value)
}

/// A definite-length byte string, its length written canonically.
pub fn bytes(b: &[u8]) -> (r: OwnedValue)
    ensures
        (r matches OwnedValue::Bytes(m, bb) && m == spec_size(b@.len() as u64) && bb@ == b@),
        wf(r),
{
    let v = vstd::slice::slice_to_vec(b);
    let m = MinorType::size(v.len());
    OwnedValue::Bytes(m, v)
}

/// An indefinite-length byte string made of the given definite chunks.
pub fn indefinite_bytes(chunks: &[&[u8]]) -> (r: OwnedValue)
    ensures
        (r matches OwnedValue::IndefiniteBytes(cs) && cs@.len() == chunks@.len() && (forall|i: int|
            0 <= i < chunks@.len() ==> (#[trigger] cs@[i]).0 == spec_size(chunks@[i]@.len() as u64)
                && cs@[i].1@ == chunks@[i]@)),
        wf(r),
{
    let mut cs: Vec<(MinorType, Vec<u8>)> = Vec::new();
    let n = chunks.len();
    for i in 0..n
        invariant
            n == chunks@.len(),
            cs@.len() == i,
            forall|j: int|
                0 <= j < i ==> (#[trigger] cs@[j]).0 == spec_size(chunks@[j]@.len() as u64)
                    && cs@[j].1@ == chunks@[j]@,
            forall|j: int|
                0 <= j < i ==> minor_numeric((#[trigger] cs@[j]).0) && minor_value(cs@[j].0)
                    == cs@[j].1@.len(),
    {
        let c: &[u8] = *vstd::slice::slice_index_get(chunks, i);
        let v = vstd::slice::slice_to_vec(c);
        let vlen = v.len();
        let m = MinorType::size(vlen);
        proof {
            crate::minor_type::lemma_spec_size_value(vlen as u64);
        }
        cs.push((m, v));
    }
    proof {
        lemma_wf_chunks_forall(cs@);
    }
    OwnedValue::IndefiniteBytes(cs)
}

/// A definite-length text string, its byte length written canonically.
pub fn text(s: &str) -> (r: OwnedValue)
    ensures
        (r matches OwnedValue::Text(m, b) && m == spec_size(encode_utf8(s@).len() as u64) && b@
            == encode_utf8(s@)),
        wf(r),
{
    let b = s.as_bytes_vec();
    let m = MinorType::size(b.len());
    OwnedValue::Text(m, b)
}

/// An indefinite-length text string made of the given definite chunks.
pub fn indefinite_text(chunks: &[&str]) -> (r: OwnedValue)
    ensures
        (r matches OwnedValue::IndefiniteText(cs) && cs@.len() == chunks@.len() && (forall|i: int|
            0 <= i < chunks@.len() ==> (#[trigger] cs@[i]).0 == spec_size(
                encode_utf8(chunks@[i]@).len() as u64,
            ) && cs@[i].1@ == encode_utf8(chunks@[i]@))),
        wf(r),
{
    let mut cs: Vec<(MinorType, Vec<u8>)> = Vec::new();
    let n = chunks.len();
    for i in 0..n
        invariant
            n == chunks@.len(),
            cs@.len() == i,
            forall|j: int|
                0 <= j < i ==> (#[trigger] cs@[j]).0 == spec_size(
                    encode_utf8(chunks@[j]@).len() as u64,
                ) && cs@[j].1@ == encode_utf8(chunks@[j]@),
            forall|j: int|
                0 <= j < i ==> minor_numeric((#[trigger] cs@[j]).0) && minor_value(cs@[j].0)
                    == cs@[j].1@.len(),
    {
        let c: &str = *vstd::slice::slice_index_get(chunks, i);
        let v = c.as_bytes_vec();
        let vlen = v.len();
        let m = MinorType::size(vlen);
        proof {
            crate::minor_type::lemma_spec_size_value(vlen as u64);
        }
        cs.push((m, v));
    }
    proof {
        lemma_wf_chunks_forall(cs@);
        assert forall|i: int| 0 <= i < cs@.len() implies valid_utf8(#[trigger] cs@[i].1@) by {
            assert(cs@[i].1@ == encode_utf8(chunks@[i]@));
        }
        lemma_chunks_payload_valid(cs@);
    }
    OwnedValue::IndefiniteText(cs)
}

/// A definite-length array, its count written canonically.
pub fn array(values: Vec<OwnedValue>) -> (r: OwnedValue)
    ensures
        r == OwnedValue::Array(spec_size(values@.len() as u64), values),
        wf_items(values@) ==> wf(r),
{
    let m = MinorType::size(values.len());
    OwnedValue::Array(m, values)
}

/// An indefinite-length array, ended by a break on the wire.
pub fn indefinite_array(values: Vec<OwnedValue>) -> (r: OwnedValue)
    ensures
        r == OwnedValue::IndefiniteArray(values),
        wf_items(values@) ==> wf(r),
{
    OwnedValue::IndefiniteArray(values)
}

/// One key-value pair for a map.
pub fn key_value(key: OwnedValue, value: OwnedValue) -> (r: (OwnedValue, OwnedValue))
    ensures
        r == (key, value),
{
    (key, value)
}

/// A definite-length map of the given pairs, in the order given; the
/// pair count is written canonically.
pub fn map(pairs: Vec<(OwnedValue, OwnedValue)>) -> (r: OwnedValue)
    ensures
        r == OwnedValue::Mapping(spec_size(pairs@.len() as u64), pairs),
        wf_pairs(pairs@) ==> wf(r),
{
    let m = MinorType::size(pairs.len());
    OwnedValue::Mapping(m, pairs)
}

/// An indefinite-length map, ended by a break on the wire.
pub fn indefinite_map(pairs: Vec<(OwnedValue, OwnedValue)>) -> (r: OwnedValue)
    ensures
        r == OwnedValue::IndefiniteMapping(pairs),
        wf_pairs(pairs@) ==> wf(r),
{
    OwnedValue::IndefiniteMapping(pairs)
}
} // verus!
