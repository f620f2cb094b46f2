use vstd::prelude::*;

use crate::major_type::head_bytes;
use crate::minor_type::{minor_arg_bytes, minor_numeric, minor_value, spec_size, MinorType};
use crate::owned::{wire_bytes, OwnedValue};

verus! {

/// How many bytes an unsigned integer argument takes in its canonical
/// head: 1, 2, 3, 5 or 9.
pub open spec fn canonical_head_len(n: u64) -> int {
    if n < 24 {
        1
    } else if n <= 0xFF {
        2
    } else if n <= 0xFFFF {
        3
    } else if n <= 0xFFFF_FFFF {
        5
    } else {
        9
    }
}

/// The canonical encoding of an unsigned integer takes the fewest bytes
/// of any head that can carry its value: every integer item built with
/// the canonical width is at least as short as any other width that
/// holds the same number.
pub proof fn lemma_canonical_integer_shortest(n: u64)
    ensures
        wire_bytes(OwnedValue::Unsigned(spec_size(n))).len() == canonical_head_len(n),
        forall|m: MinorType|
            minor_numeric(m) && minor_value(m) == n ==> #[trigger] wire_bytes(
                OwnedValue::Unsigned(m),
            ).len() >= canonical_head_len(n),
{
    assert(head_bytes(0, spec_size(n)).len() == 1 + minor_arg_bytes(spec_size(n)).len());
    assert forall|m: MinorType|
        minor_numeric(m) && minor_value(m) == n implies #[trigger] wire_bytes(
        OwnedValue::Unsigned(m),
    ).len() >= canonical_head_len(n) by {
        assert(wire_bytes(OwnedValue::Unsigned(m)) == head_bytes(0, m));
        assert(head_bytes(0, m).len() == 1 + minor_arg_bytes(m).len());
    }
}

/// A negative integer encodes as major type 1 whose argument is one less
/// than the magnitude: an item built for `-1-n` is exactly the head
/// `(1, n)` in canonical width.
pub proof fn lemma_negative_integer_head(n: u64)
    ensures
        wire_bytes(OwnedValue::Negative(spec_size(n))) == head_bytes(1, spec_size(n)),
        wire_bytes(OwnedValue::Negative(spec_size(n))).len() == canonical_head_len(n),
        forall|m: MinorType|
            minor_numeric(m) && minor_value(m) == n ==> #[trigger] wire_bytes(
                OwnedValue::Negative(m),
            ).len() >= canonical_head_len(n),
{
    assert forall|m: MinorType|
        minor_numeric(m) && minor_value(m) == n implies #[trigger] wire_bytes(
        OwnedValue::Negative(m),
    ).len() >= canonical_head_len(n) by {
        assert(wire_bytes(OwnedValue::Negative(m)) == head_bytes(1, m));
        assert(head_bytes(1, m).len() == 1 + minor_arg_bytes(m).len());
    }
}

} // verus!
