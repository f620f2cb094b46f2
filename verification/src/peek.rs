use vstd::prelude::*;

use crate::error::Error;
use crate::minor_type::{minor_numeric, minor_value, MinorType};
use crate::owned::{height, wf, wire_bytes, OwnedValue};
use vstd::utf8::valid_utf8;
use crate::parse::{
    match_at, parse_head, parse_item, same_item, sp_head, DEFAULT_RECURSION_LIMIT,
};

verus! {

/// Reads one complete item from the front of the bytes, with the default
/// nesting limit. Wherever a well-formed item of height at most the
/// default limit starts the buffer, the read succeeds and hands back its
/// content.
pub fn peek(bytes: &[u8]) -> (r: Option<OwnedValue>)
    ensures
        (r matches Some(v) ==> wf(v) && wire_bytes(v).len() <= bytes@.len() && bytes@.subrange(
            0,
            wire_bytes(v).len() as int,
        ) == wire_bytes(v)),
        forall|w: OwnedValue|
            (#[trigger] match_at(bytes@, 0, w)) && height(w) <= DEFAULT_RECURSION_LIMIT ==> (
            r matches Some(v) && same_item(v, w)),
{
    match parse_item(bytes, 0, DEFAULT_RECURSION_LIMIT) {
        Ok((v, _)) => Some(v),
        Err(_) => None,
    }
}

/// Reads one complete item and also reports how many bytes it took.
/// Failures carry the error kind the offending shape calls for: a bad
/// or truncated head, a break outside a container, a reserved simple
/// value, text that is not UTF-8, or nesting past the depth bound.
pub fn peek_with_len(bytes: &[u8], depth: u32) -> (r: Result<(OwnedValue, usize), Error>)
    ensures
        (r matches Ok((v, n)) ==> wf(v) && height(v) <= depth && 0 < n <= bytes@.len()
            && bytes@.subrange(0, n as int) == wire_bytes(v)),
        forall|w: OwnedValue|
            (#[trigger] match_at(bytes@, 0, w)) && height(w) <= depth ==> (r matches Ok((v, n))
                && same_item(v, w) && n == wire_bytes(w).len()),
        (sp_head(bytes@, 0) matches Err(e) ==> r == Err::<(OwnedValue, usize), Error>(e)),
        (sp_head(bytes@, 0) matches Ok((mj, m, p)) && (mj == 0 || mj == 1 || mj == 6) && (
        m is Indefinite) ==> r == Err::<(OwnedValue, usize), Error>(Error::MalformedHead)),
        (sp_head(bytes@, 0) matches Ok((mj, m, p)) && mj == 7 && (m is Indefinite) ==> r == Err::<
            (OwnedValue, usize),
            Error,
        >(Error::UnexpectedBreak)),
        (sp_head(bytes@, 0) matches Ok((mj, m, p)) && mj == 7 && (m matches MinorType::OneByte(x)
            && x < 32) ==> r == Err::<(OwnedValue, usize), Error>(Error::MalformedHead)),
        (sp_head(bytes@, 0) matches Ok((mj, m, p)) && (mj == 2 || mj == 3) && minor_numeric(m)
            && p + minor_value(m) > bytes@.len() ==> r == Err::<(OwnedValue, usize), Error>(
            Error::UnexpectedEof,
        )),
        (sp_head(bytes@, 0) matches Ok((mj, m, p)) && mj == 3 && minor_numeric(m) && p
            + minor_value(m) <= bytes@.len() && !valid_utf8(
            bytes@.subrange(p, p + minor_value(m)),
        ) ==> r == Err::<(OwnedValue, usize), Error>(Error::InvalidUtf8)),
        (sp_head(bytes@, 0) matches Ok((mj, m, p)) && mj == 3 && (m is Indefinite) && (exists|
            cs: Seq<(MinorType, Vec<u8>)>,
        |
            crate::parse::chunks_match_at(bytes@, p, 3, cs) && !valid_utf8(
                crate::owned::chunks_payload(cs),
            )) ==> r == Err::<(OwnedValue, usize), Error>(Error::InvalidUtf8)),
        (sp_head(bytes@, 0) matches Ok((mj, m, p)) && depth == 0 && (mj == 4 || mj == 5 || (mj
            == 6 && minor_numeric(m))) ==> r == Err::<(OwnedValue, usize), Error>(
            Error::RecursionLimit,
        )),
        forall|w: OwnedValue|
            (#[trigger] match_at(bytes@, 0, w)) && height(w) > depth ==> r == Err::<
                (OwnedValue, usize),
                Error,
            >(Error::RecursionLimit),
{
    parse_item(bytes, 0, depth)
}

/// A small unsigned integer packed into its head byte, if one starts the
/// bytes.
pub fn usmall(bytes: &[u8]) -> (r: Option<OwnedValue>)
    ensures
        r == (match sp_head(bytes@, 0) {
            Ok((mj, m, _)) => if mj == 0 && m is SameByte {
                Some(OwnedValue::Unsigned(m))
            } else {
                None
            },
            Err(_) => None,
        }),
{
    match parse_head(bytes, 0) {
        Ok((0, MinorType::SameByte(x), _)) => Some(OwnedValue::Unsigned(MinorType::SameByte(x))),
        _ => None,
    }
}

/// An unsigned integer with a one-byte argument, if one starts the bytes.
pub fn u8(bytes: &[u8]) -> (r: Option<OwnedValue>)
    ensures
        r == (match sp_head(bytes@, 0) {
            Ok((mj, m, _)) => if mj == 0 && m is OneByte {
                Some(OwnedValue::Unsigned(m))
            } else {
                None
            },
            Err(_) => None,
        }),
{
    match parse_head(bytes, 0) {
        Ok((0, MinorType::OneByte(x), _)) => Some(OwnedValue::Unsigned(MinorType::OneByte(x))),
        _ => None,
    }
}

/// An unsigned integer with a two-byte argument, if one starts the bytes.
pub fn u16(bytes: &[u8]) -> (r: Option<OwnedValue>)
    ensures
        r == (match sp_head(bytes@, 0) {
            Ok((mj, m, _)) => if mj == 0 && m is TwoBytes {
                Some(OwnedValue::Unsigned(m))
            } else {
                None
            },
            Err(_) => None,
        }),
{
    match parse_head(bytes, 0) {
        Ok((0, MinorType::TwoBytes(x), _)) => Some(OwnedValue::Unsigned(MinorType::TwoBytes(x))),
        _ => None,
    }
}

/// An unsigned integer with a four-byte argument, if one starts the
/// bytes.
pub fn u32(bytes: &[u8]) -> (r: Option<OwnedValue>)
    ensures
        r == (match sp_head(bytes@, 0) {
            Ok((mj, m, _)) => if mj == 0 && m is FourBytes {
                Some(OwnedValue::Unsigned(m))
            } else {
                None
            },
            Err(_) => None,
        }),
{
    match parse_head(bytes, 0) {
        Ok((0, MinorType::FourBytes(x), _)) => Some(OwnedValue::Unsigned(MinorType::FourBytes(x))),
        _ => None,
    }
}

/// An unsigned integer with an eight-byte argument, if one starts the
/// bytes.
pub fn u64(bytes: &[u8]) -> (r: Option<OwnedValue>)
    ensures
        r == (match sp_head(bytes@, 0) {
            Ok((mj, m, _)) => if mj == 0 && m is EightBytes {
                Some(OwnedValue::Unsigned(m))
            } else {
                None
            },
            Err(_) => None,
        }),
{
    match parse_head(bytes, 0) {
        Ok((0, MinorType::EightBytes(x), _)) => Some(
            OwnedValue::Unsigned(MinorType::EightBytes(x)),
        ),
        _ => None,
    }
}

/// An unsigned integer of any width, if one starts the bytes.
pub fn uint(bytes: &[u8]) -> (r: Option<OwnedValue>)
    ensures
        r == (match sp_head(bytes@, 0) {
            Ok((mj, m, _)) => if mj == 0 && minor_numeric(m) {
                Some(OwnedValue::Unsigned(m))
            } else {
                None
            },
            Err(_) => None,
        }),
{
    match parse_head(bytes, 0) {
        Ok((0, m, _)) => {
            if let MinorType::Indefinite = m {
                None
            } else {
                proof {
                    crate::parse::lemma_sp_head_to_bytes(bytes@, 0, 0, m, sp_head_new_pos(bytes@));
                }
                Some(OwnedValue::Unsigned(m))
            }
        }
        _ => None,
    }
}

/// The position just past the head, for reasoning about a successful
/// head read.
pub open spec fn sp_head_new_pos(b: Seq<u8>) -> int {
    match sp_head(b, 0) {
        Ok((_, _, p)) => p,
        Err(_) => 0,
    }
}

/// A negative integer packed into its head byte, if one starts the
/// bytes.
pub fn negative_usmall(bytes: &[u8]) -> (r: Option<OwnedValue>)
    ensures
        r == (match sp_head(bytes@, 0) {
            Ok((mj, m, _)) => if mj == 1 && m is SameByte {
                Some(OwnedValue::Negative(m))
            } else {
                None
            },
            Err(_) => None,
        }),
{
    match parse_head(bytes, 0) {
        Ok((1, MinorType::SameByte(x), _)) => Some(OwnedValue::Negative(MinorType::SameByte(x))),
        _ => None,
    }
}

/// A negative integer with a one-byte argument, if one starts the bytes.
pub fn negative_u8(bytes: &[u8]) -> (r: Option<OwnedValue>)
    ensures
        r == (match sp_head(bytes@, 0) {
            Ok((mj, m, _)) => if mj == 1 && m is OneByte {
                Some(OwnedValue::Negative(m))
            } else {
                None
            },
            Err(_) => None,
        }),
{
    match parse_head(bytes, 0) {
        Ok((1, MinorType::OneByte(x), _)) => Some(OwnedValue::Negative(MinorType::OneByte(x))),
        _ => None,
    }
}

/// A negative integer with a two-byte argument, if one starts the bytes.
pub fn negative_u16(bytes: &[u8]) -> (r: Option<OwnedValue>)
    ensures
        r == (match sp_head(bytes@, 0) {
            Ok((mj, m, _)) => if mj == 1 && m is TwoBytes {
                Some(OwnedValue::Negative(m))
            } else {
                None
            },
            Err(_) => None,
        }),
{
    match parse_head(bytes, 0) {
        Ok((1, MinorType::TwoBytes(x), _)) => Some(OwnedValue::Negative(MinorType::TwoBytes(x))),
        _ => None,
    }
}

/// A negative integer with a four-byte argument, if one starts the
/// bytes.
pub fn negative_u32(bytes: &[u8]) -> (r: Option<OwnedValue>)
    ensures
        r == (match sp_head(bytes@, 0) {
            Ok((mj, m, _)) => if mj == 1 && m is FourBytes {
                Some(OwnedValue::Negative(m))
            } else {
                None
            },
            Err(_) => None,
        }),
{
    match parse_head(bytes, 0) {
        Ok((1, MinorType::FourBytes(x), _)) => Some(OwnedValue::Negative(MinorType::FourBytes(x))),
        _ => None,
    }
}

/// A negative integer with an eight-byte argument, if one starts the
/// bytes.
pub fn negative_u64(bytes: &[u8]) -> (r: Option<OwnedValue>)
    ensures
        r == (match sp_head(bytes@, 0) {
            Ok((mj, m, _)) => if mj == 1 && m is EightBytes {
                Some(OwnedValue::Negative(m))
            } else {
                None
            },
            Err(_) => None,
        }),
{
    match parse_head(bytes, 0) {
        Ok((1, MinorType::EightBytes(x), _)) => Some(
            OwnedValue::Negative(MinorType::EightBytes(x)),
        ),
        _ => None,
    }
}

/// A negative integer of any width, if one starts the bytes.
pub fn negative_uint(bytes: &[u8]) -> (r: Option<OwnedValue>)
    ensures
        r == (match sp_head(bytes@, 0) {
            Ok((mj, m, _)) => if mj == 1 && minor_numeric(m) {
                Some(OwnedValue::Negative(m))
            } else {
                None
            },
            Err(_) => None,
        }),
{
    match parse_head(bytes, 0) {
        Ok((1, m, _)) => {
            if let MinorType::Indefinite = m {
                None
            } else {
                proof {
                    crate::parse::lemma_sp_head_to_bytes(bytes@, 0, 1, m, sp_head_new_pos(bytes@));
                }
                Some(OwnedValue::Negative(m))
            }
        }
        _ => None,
    }
}

/// A small integer of either sign packed into its head byte, if one
/// starts the bytes.
pub fn ismall(bytes: &[u8]) -> (r: Option<OwnedValue>)
    ensures
        r == (match sp_head(bytes@, 0) {
            Ok((mj, m, _)) => if mj == 0 && m is SameByte {
                Some(OwnedValue::Unsigned(m))
            } else if mj == 1 && m is SameByte {
                Some(OwnedValue::Negative(m))
            } else {
                None
            },
            Err(_) => None,
        }),
{
    match usmall(bytes) {
        Some(v) => Some(v),
        None => negative_usmall(bytes),
    }
}

/// An integer of either sign with a one-byte argument, if one starts
/// the bytes.
pub fn i8(bytes: &[u8]) -> (r: Option<OwnedValue>)
    ensures
        r == (match sp_head(bytes@, 0) {
            Ok((mj, m, _)) => if mj == 0 && m is OneByte {
                Some(OwnedValue::Unsigned(m))
            } else if mj == 1 && m is OneByte {
                Some(OwnedValue::Negative(m))
            } else {
                None
            },
            Err(_) => None,
        }),
{
    match u8(bytes) {
        Some(v) => Some(v),
        None => negative_u8(bytes),
    }
}

/// An integer of either sign with a two-byte argument, if one starts
/// the bytes.
pub fn i16(bytes: &[u8]) -> (r: Option<OwnedValue>)
    ensures
        r == (match sp_head(bytes@, 0) {
            Ok((mj, m, _)) => if mj == 0 && m is TwoBytes {
                Some(OwnedValue::Unsigned(m))
            } else if mj == 1 && m is TwoBytes {
                Some(OwnedValue::Negative(m))
            } else {
                None
            },
            Err(_) => None,
        }),
{
    match u16(bytes) {
        Some(v) => Some(v),
        None => negative_u16(bytes),
    }
}

/// An integer of either sign with a four-byte argument, if one starts
/// the bytes.
pub fn i32(bytes: &[u8]) -> (r: Option<OwnedValue>)
    ensures
        r == (match sp_head(bytes@, 0) {
            Ok((mj, m, _)) => if mj == 0 && m is FourBytes {
                Some(OwnedValue::Unsigned(m))
            } else if mj == 1 && m is FourBytes {
                Some(OwnedValue::Negative(m))
            } else {
                None
            },
            Err(_) => None,
        }),
{
    match u32(bytes) {
        Some(v) => Some(v),
        None => negative_u32(bytes),
    }
}

/// An integer of either sign with an eight-byte argument, if one starts
/// the bytes.
pub fn i64(bytes: &[u8]) -> (r: Option<OwnedValue>)
    ensures
        r == (match sp_head(bytes@, 0) {
            Ok((mj, m, _)) => if mj == 0 && m is EightBytes {
                Some(OwnedValue::Unsigned(m))
            } else if mj == 1 && m is EightBytes {
                Some(OwnedValue::Negative(m))
            } else {
                None
            },
            Err(_) => None,
        }),
{
    match u64(bytes) {
        Some(v) => Some(v),
        None => negative_u64(bytes),
    }
}

/// An integer of either sign and any width, if one starts the bytes.
pub fn integer(bytes: &[u8]) -> (r: Option<OwnedValue>)
    ensures
        r == (match sp_head(bytes@, 0) {
            Ok((mj, m, _)) => if mj == 0 && minor_numeric(m) {
                Some(OwnedValue::Unsigned(m))
            } else if mj == 1 && minor_numeric(m) {
                Some(OwnedValue::Negative(m))
            } else {
                None
            },
            Err(_) => None,
        }),
{
    match uint(bytes) {
        Some(v) => Some(v),
        None => negative_uint(bytes),
    }
}

/// Either boolean simple value, if one starts the bytes.
pub fn bool(bytes: &[u8]) -> (r: Option<OwnedValue>)
    ensures
        r == (match sp_head(bytes@, 0) {
            Ok((mj, m, _)) => if mj == 7 && m == MinorType::SameByte(21u8) {
                Some(OwnedValue::True)
            } else if mj == 7 && m == MinorType::SameByte(20u8) {
                Some(OwnedValue::False)
            } else {
                None
            },
            Err(_) => None,
        }),
{
    match parse_head(bytes, 0) {
        Ok((7, MinorType::SameByte(21), _)) => Some(OwnedValue::True),
        Ok((7, MinorType::SameByte(20), _)) => Some(OwnedValue::False),
        _ => None,
    }
}

/// The simple value `true`, if it starts the bytes.
pub fn true_value(bytes: &[u8]) -> (r: Option<OwnedValue>)
    ensures
        r == (match sp_head(bytes@, 0) {
            Ok((mj, m, _)) => if mj == 7 && m == MinorType::SameByte(21u8) {
                Some(OwnedValue::True)
            } else {
                None
            },
            Err(_) => None,
        }),
{
    match parse_head(bytes, 0) {
        Ok((7, MinorType::SameByte(21), _)) => Some(OwnedValue::True),
        _ => None,
    }
}

/// The simple value `false`, if it starts the bytes.
pub fn false_value(bytes: &[u8]) -> (r: Option<OwnedValue>)
    ensures
        r == (match sp_head(bytes@, 0) {
            Ok((mj, m, _)) => if mj == 7 && m == MinorType::SameByte(20u8) {
                Some(OwnedValue::False)
            } else {
                None
            },
            Err(_) => None,
        }),
{
    match parse_head(bytes, 0) {
        Ok((7, MinorType::SameByte(20), _)) => Some(OwnedValue::False),
        _ => None,
    }
}

/// The simple value `null`, if it starts the bytes.
pub fn null(bytes: &[u8]) -> (r: Option<OwnedValue>)
    ensures
        r == (match sp_head(bytes@, 0) {
            Ok((mj, m, _)) => if mj == 7 && m == MinorType::SameByte(22u8) {
                Some(OwnedValue::Null)
            } else {
                None
            },
            Err(_) => None,
        }),
{
    match parse_head(bytes, 0) {
        Ok((7, MinorType::SameByte(22), _)) => Some(OwnedValue::Null),
        _ => None,
    }
}

/// The simple value `undefined`, if it starts the bytes.
pub fn undefined(bytes: &[u8]) -> (r: Option<OwnedValue>)
    ensures
        r == (match sp_head(bytes@, 0) {
            Ok((mj, m, _)) => if mj == 7 && m == MinorType::SameByte(23u8) {
                Some(OwnedValue::Undefined)
            } else {
                None
            },
            Err(_) => None,
        }),
{
    match parse_head(bytes, 0) {
        Ok((7, MinorType::SameByte(23), _)) => Some(OwnedValue::Undefined),
        _ => None,
    }
}

/// A float of any width, kept as its bits, if one starts the bytes.
pub fn float(bytes: &[u8]) -> (r: Option<OwnedValue>)
    ensures
        r == (match sp_head(bytes@, 0) {
            Ok((mj, m, _)) => if mj == 7 && m is TwoBytes {
                Some(OwnedValue::HalfFloat(m->TwoBytes_0))
            } else if mj == 7 && m is FourBytes {
                Some(OwnedValue::SingleFloat(m->FourBytes_0))
            } else if mj == 7 && m is EightBytes {
                Some(OwnedValue::DoubleFloat(m->EightBytes_0))
            } else {
                None
            },
            Err(_) => None,
        }),
{
    match parse_head(bytes, 0) {
        Ok((7, MinorType::TwoBytes(x), _)) => Some(OwnedValue::HalfFloat(x)),
        Ok((7, MinorType::FourBytes(x), _)) => Some(OwnedValue::SingleFloat(x)),
        Ok((7, MinorType::EightBytes(x), _)) => Some(OwnedValue::DoubleFloat(x)),
        _ => None,
    }
}

/// A half-precision float, kept as its bits, if one starts the bytes.
pub fn half_float(bytes: &[u8]) -> (r: Option<OwnedValue>)
    ensures
        r == (match sp_head(bytes@, 0) {
            Ok((mj, m, _)) => if mj == 7 && m is TwoBytes {
                Some(OwnedValue::HalfFloat(m->TwoBytes_0))
            } else {
                None
            },
            Err(_) => None,
        }),
{
    match parse_head(bytes, 0) {
        Ok((7, MinorType::TwoBytes(x), _)) => Some(OwnedValue::HalfFloat(x)),
        _ => None,
    }
}

/// A single-precision float, kept as its bits, if one starts the bytes.
pub fn single_float(bytes: &[u8]) -> (r: Option<OwnedValue>)
    ensures
        r == (match sp_head(bytes@, 0) {
            Ok((mj, m, _)) => if mj == 7 && m is FourBytes {
                Some(OwnedValue::SingleFloat(m->FourBytes_0))
            } else {
                None
            },
            Err(_) => None,
        }),
{
    match parse_head(bytes, 0) {
        Ok((7, MinorType::FourBytes(x), _)) => Some(OwnedValue::SingleFloat(x)),
        _ => None,
    }
}

/// A double-precision float, kept as its bits, if one starts the bytes.
pub fn double_float(bytes: &[u8]) -> (r: Option<OwnedValue>)
    ensures
        r == (match sp_head(bytes@, 0) {
            Ok((mj, m, _)) => if mj == 7 && m is EightBytes {
                Some(OwnedValue::DoubleFloat(m->EightBytes_0))
            } else {
                None
            },
            Err(_) => None,
        }),
{
    match parse_head(bytes, 0) {
        Ok((7, MinorType::EightBytes(x), _)) => Some(OwnedValue::DoubleFloat(x)),
        _ => None,
    }
}

/// A tagged item, if one starts the bytes and parses completely.
pub fn tag(bytes: &[u8]) -> (r: Option<OwnedValue>)
    ensures
        (r matches Some(v) ==> v is Tag && wf(v) && wire_bytes(v).len() <= bytes@.len()
            && bytes@.subrange(0, wire_bytes(v).len() as int) == wire_bytes(v)),
        forall|w: OwnedValue|
            (#[trigger] match_at(bytes@, 0, w)) && height(w) <= DEFAULT_RECURSION_LIMIT && (
            w is Tag) ==> (r matches Some(v) && same_item(v, w)),
{
    match parse_item(bytes, 0, DEFAULT_RECURSION_LIMIT) {
        Ok((v, _)) => {
            if let OwnedValue::Tag(_, _) = v {
                Some(v)
            } else {
                proof {
                    assert forall|w: OwnedValue|
                        (#[trigger] match_at(bytes@, 0, w)) && height(w)
                            <= DEFAULT_RECURSION_LIMIT && (w is Tag) implies false by {}
                }
                None
            }
        }
        Err(_) => None,
    }
}

/// A definite-length array, if one starts the bytes and parses
/// completely.
pub fn array(bytes: &[u8]) -> (r: Option<OwnedValue>)
    ensures
        (r matches Some(v) ==> v is Array && wf(v) && wire_bytes(v).len() <= bytes@.len()
            && bytes@.subrange(0, wire_bytes(v).len() as int) == wire_bytes(v)),
        forall|w: OwnedValue|
            (#[trigger] match_at(bytes@, 0, w)) && height(w) <= DEFAULT_RECURSION_LIMIT && (
            w is Array) ==> (r matches Some(v) && same_item(v, w)),
{
    match parse_item(bytes, 0, DEFAULT_RECURSION_LIMIT) {
        Ok((v, _)) => {
            if let OwnedValue::Array(_, _) = v {
                Some(v)
            } else {
                proof {
                    assert forall|w: OwnedValue|
                        (#[trigger] match_at(bytes@, 0, w)) && height(w)
                            <= DEFAULT_RECURSION_LIMIT && (w is Array) implies false by {}
                }
                None
            }
        }
        Err(_) => None,
    }
}

/// An indefinite-length array, if one starts the bytes and parses
/// completely.
pub fn indefinite_array(bytes: &[u8]) -> (r: Option<OwnedValue>)
    ensures
        (r matches Some(v) ==> v is IndefiniteArray && wf(v) && wire_bytes(v).len()
            <= bytes@.len() && bytes@.subrange(0, wire_bytes(v).len() as int) == wire_bytes(v)),
        forall|w: OwnedValue|
            (#[trigger] match_at(bytes@, 0, w)) && height(w) <= DEFAULT_RECURSION_LIMIT && (
            w is IndefiniteArray) ==> (r matches Some(v) && same_item(v, w)),
{
    match parse_item(bytes, 0, DEFAULT_RECURSION_LIMIT) {
        Ok((v, _)) => {
            if let OwnedValue::IndefiniteArray(_) = v {
                Some(v)
            } else {
                proof {
                    assert forall|w: OwnedValue|
                        (#[trigger] match_at(bytes@, 0, w)) && height(w)
                            <= DEFAULT_RECURSION_LIMIT && (w is IndefiniteArray) implies false by {}
                }
                None
            }
        }
        Err(_) => None,
    }
}

/// A definite-length text string, if one starts the bytes and parses
/// completely.
pub fn text(bytes: &[u8]) -> (r: Option<OwnedValue>)
    ensures
        (r matches Some(v) ==> v is Text && wf(v) && wire_bytes(v).len() <= bytes@.len()
            && bytes@.subrange(0, wire_bytes(v).len() as int) == wire_bytes(v)),
        forall|w: OwnedValue|
            (#[trigger] match_at(bytes@, 0, w)) && height(w) <= DEFAULT_RECURSION_LIMIT && (
            w is Text) ==> (r matches Some(v) && same_item(v, w)),
{
    match parse_item(bytes, 0, DEFAULT_RECURSION_LIMIT) {
        Ok((v, _)) => {
            if let OwnedValue::Text(_, _) = v {
                Some(v)
            } else {
                proof {
                    assert forall|w: OwnedValue|
                        (#[trigger] match_at(bytes@, 0, w)) && height(w)
                            <= DEFAULT_RECURSION_LIMIT && (w is Text) implies false by {}
                }
                None
            }
        }
        Err(_) => None,
    }
}

/// Whether a small unsigned integer starts the bytes.
pub fn is_usmall(bytes: &[u8]) -> (r: bool)
    ensures
        r == (match sp_head(bytes@, 0) {
            Ok((mj, m, _)) => mj == 0 && m is SameByte,
            Err(_) => false,
        }),
{
    peek_usmall(bytes).is_some()
}

/// The value of a small unsigned integer starting the bytes.
pub fn peek_usmall(bytes: &[u8]) -> (r: Option<u8>)
    ensures
        r == (match sp_head(bytes@, 0) {
            Ok((mj, m, _)) => if mj == 0 && m is SameByte {
                Some(m->SameByte_0)
            } else {
                None::<u8>
            },
            Err(_) => None::<u8>,
        }),
{
    match parse_head(bytes, 0) {
        Ok((0, MinorType::SameByte(x), _)) => Some(x),
        _ => None,
    }
}

/// The value of a one-byte unsigned integer starting the bytes.
pub fn peek_u8(bytes: &[u8]) -> (r: Option<u8>)
    ensures
        r == (match sp_head(bytes@, 0) {
            Ok((mj, m, _)) => if mj == 0 && m is OneByte {
                Some(m->OneByte_0)
            } else {
                None::<u8>
            },
            Err(_) => None::<u8>,
        }),
{
    match parse_head(bytes, 0) {
        Ok((0, MinorType::OneByte(x), _)) => Some(x),
        _ => None,
    }
}

} // verus!
