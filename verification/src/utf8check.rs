use vstd::prelude::*;

use vstd::slice::slice_index_get;
use vstd::utf8::{
    decode_first_codepoint, is_continuation_byte, is_leading_byte_width_1, is_leading_byte_width_2,
    is_leading_byte_width_3, is_leading_byte_width_4, length_of_first_codepoint,
    not_overlong_encoding, not_surrogate, pop_first_scalar, valid_first_scalar,
    valid_leading_and_continuation_bytes_first_codepoint, valid_utf8,
};

verus! {

/// Checks whether the bytes form a valid UTF-8 encoding, scalar by scalar.
pub fn is_valid_utf8(b: &[u8]) -> (r: bool)
    ensures
        r == valid_utf8(b@),
{
    let n = b.len();
    let mut i: usize = 0;
    proof {
        assert(b@.skip(0) =~= b@);
    }
    loop
        invariant
            i <= n,
            n == b@.len(),
            valid_utf8(b@) == valid_utf8(b@.skip(i as int)),
        decreases n - i,
    {
        if i == n {
            proof {
                assert(b@.skip(i as int) =~= Seq::<u8>::empty());
            }
            return true;
        }
        let ghost rest = b@.skip(i as int);
        proof {
            assert(rest.len() == n - i);
            assert(rest[0] == b@[i as int]);
        }
        let b0 = *slice_index_get(b, i);
        if b0 <= 0x7f {
            proof {
                assert(is_leading_byte_width_1(rest[0]));
                assert(length_of_first_codepoint(rest) == 1);
                assert(decode_first_codepoint(rest) == (b0 & 0x7F) as u32);
                assert((b0 & 0x7F) as u32 <= 0x7f) by (bit_vector);
                assert(valid_first_scalar(rest));
                assert(pop_first_scalar(rest) =~= b@.skip(i + 1));
            }
            i = i + 1;
        } else if 0xc0 <= b0 && b0 <= 0xdf {
            if n - i < 2 {
                proof {
                    assert(!valid_leading_and_continuation_bytes_first_codepoint(rest));
                }
                return false;
            }
            let b1 = *slice_index_get(b, i + 1);
            proof {
                assert(rest[1] == b@[i + 1]);
            }
            if !(0x80 <= b1 && b1 <= 0xbf) {
                proof {
                    assert(!valid_leading_and_continuation_bytes_first_codepoint(rest));
                }
                return false;
            }
            let cp: u32 = (((b0 & 0x1F) as u32) << 6) | ((b1 & 0x3F) as u32);
            proof {
                assert(length_of_first_codepoint(rest) == 2);
                assert(decode_first_codepoint(rest) == cp);
                assert((((b0 & 0x1F) as u32) << 6) | ((b1 & 0x3F) as u32) <= 0x7ff)
                    by (bit_vector);
            }
            if cp < 0x80 {
                proof {
                    assert(!not_overlong_encoding(decode_first_codepoint(rest), 2));
                }
                return false;
            }
            proof {
                assert(valid_first_scalar(rest));
                assert(pop_first_scalar(rest) =~= b@.skip(i + 2));
            }
            i = i + 2;
        } else if 0xe0 <= b0 && b0 <= 0xef {
            if n - i < 3 {
                proof {
                    assert(!valid_leading_and_continuation_bytes_first_codepoint(rest));
                }
                return false;
            }
            let b1 = *slice_index_get(b, i + 1);
            let b2 = *slice_index_get(b, i + 2);
            proof {
                assert(rest[1] == b@[i + 1]);
                assert(rest[2] == b@[i + 2]);
            }
            if !(0x80 <= b1 && b1 <= 0xbf) || !(0x80 <= b2 && b2 <= 0xbf) {
                proof {
                    assert(!valid_leading_and_continuation_bytes_first_codepoint(rest));
                }
                return false;
            }
            let cp: u32 = (((b0 & 0x0F) as u32) << 12) | (((b1 & 0x3F) as u32) << 6) | ((b2
                & 0x3F) as u32);
            proof {
                assert(length_of_first_codepoint(rest) == 3);
                assert(decode_first_codepoint(rest) == cp);
            }
            if cp < 0x800 {
                proof {
                    assert(!not_overlong_encoding(decode_first_codepoint(rest), 3));
                }
                return false;
            }
            if 0xd800 <= cp && cp <= 0xdfff {
                proof {
                    assert(!not_surrogate(decode_first_codepoint(rest)));
                }
                return false;
            }
            proof {
                assert(valid_first_scalar(rest));
                assert(pop_first_scalar(rest) =~= b@.skip(i + 3));
            }
            i = i + 3;
        } else if 0xf0 <= b0 && b0 <= 0xf7 {
            if n - i < 4 {
                proof {
                    assert(!valid_leading_and_continuation_bytes_first_codepoint(rest));
                }
                return false;
            }
            let b1 = *slice_index_get(b, i + 1);
            let b2 = *slice_index_get(b, i + 2);
            let b3 = *slice_index_get(b, i + 3);
            proof {
                assert(rest[1] == b@[i + 1]);
                assert(rest[2] == b@[i + 2]);
                assert(rest[3] == b@[i + 3]);
            }
            if !(0x80 <= b1 && b1 <= 0xbf) || !(0x80 <= b2 && b2 <= 0xbf) || !(0x80 <= b3 && b3
                <= 0xbf) {
                proof {
                    assert(!valid_leading_and_continuation_bytes_first_codepoint(rest));
                }
                return false;
            }
            let cp: u32 = (((b0 & 0x07) as u32) << 18) | (((b1 & 0x3F) as u32) << 12) | (((b2
                & 0x3F) as u32) << 6) | ((b3 & 0x3F) as u32);
            proof {
                assert(length_of_first_codepoint(rest) == 4);
                assert(decode_first_codepoint(rest) == cp);
            }
            if cp < 0x10000 || cp > 0x10ffff {
                proof {
                    assert(!not_overlong_encoding(decode_first_codepoint(rest), 4));
                }
                return false;
            }
            proof {
                assert(0xd800 <= 0x10000);
                assert(not_surrogate(decode_first_codepoint(rest)));
                assert(valid_first_scalar(rest));
                assert(pop_first_scalar(rest) =~= b@.skip(i + 4));
            }
            i = i + 4;
        } else {
            proof {
                assert(!is_leading_byte_width_1(rest[0]));
                assert(!is_leading_byte_width_2(rest[0]));
                assert(!is_leading_byte_width_3(rest[0]));
                assert(!is_leading_byte_width_4(rest[0]));
                assert(!valid_leading_and_continuation_bytes_first_codepoint(rest));
            }
            return false;
        }
    }
}

/// Checks a whole vector for valid UTF-8.
pub fn is_valid_utf8_vec(b: &Vec<u8>) -> (r: bool)
    ensures
        r == valid_utf8(b@),
{
    is_valid_utf8(b.as_slice())
}

} // verus!
