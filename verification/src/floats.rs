use vstd::prelude::*;

use vstd::arithmetic::power2::pow2;

verus! {

/// Doubles the mantissa until its leading bit reaches the 1024 place,
/// lowering the exponent in step: the normalization of a subnormal
/// half-precision mantissa.
pub open spec fn normalize16(mm: u16, e: int) -> (u16, int)
    decreases 0x800 - mm,
{
    if mm == 0 || mm >= 0x400 {
        (mm, e)
    } else {
        normalize16((mm * 2) as u16, e - 1)
    }
}

/// Doubles the mantissa until its leading bit reaches the 2^23 place,
/// lowering the exponent in step: the normalization of a subnormal
/// single-precision mantissa.
pub open spec fn normalize32(mm: u32, e: int) -> (u32, int)
    decreases 0x1000000 - mm,
{
    if mm == 0 || mm >= 0x800000 {
        (mm, e)
    } else {
        normalize32((mm * 2) as u32, e - 1)
    }
}

/// The bits of the double-precision float with the same value as the
/// half-precision float with the given bits. Infinities keep their
/// sign, and the payload of a NaN moves to the top of the wider
/// mantissa.
pub open spec fn half_to_double_bits(h: u16) -> u64 {
    let sign: u64 = (h / 0x8000) as u64;
    let exp: u16 = (h / 0x400) % 0x20;
    let mant: u16 = h % 0x400;
    if exp == 0x1f {
        (sign * 0x8000000000000000 + 0x7ff0000000000000 + (mant as u64) * 0x40000000000) as u64
    } else if exp == 0 {
        if mant == 0 {
            (sign * 0x8000000000000000) as u64
        } else {
            let (mm, e) = normalize16(mant, -14);
            (sign * 0x8000000000000000 + ((e + 1023) as u64) * 0x10000000000000 + ((mm
                % 0x400) as u64) * 0x40000000000) as u64
        }
    } else {
        (sign * 0x8000000000000000 + ((exp + 1008) as u64) * 0x10000000000000 + (mant as u64)
            * 0x40000000000) as u64
    }
}

/// The bits of the double-precision float with the same value as the
/// single-precision float with the given bits.
pub open spec fn single_to_double_bits(x: u32) -> u64 {
    let sign: u64 = (x / 0x80000000) as u64;
    let exp: u32 = (x / 0x800000) % 0x100;
    let mant: u32 = x % 0x800000;
    if exp == 0xff {
        (sign * 0x8000000000000000 + 0x7ff0000000000000 + (mant as u64) * 0x20000000) as u64
    } else if exp == 0 {
        if mant == 0 {
            (sign * 0x8000000000000000) as u64
        } else {
            let (mm, e) = normalize32(mant, -126);
            (sign * 0x8000000000000000 + ((e + 1023) as u64) * 0x10000000000000 + ((mm
                % 0x800000) as u64) * 0x20000000) as u64
        }
    } else {
        (sign * 0x8000000000000000 + ((exp + 896) as u64) * 0x10000000000000 + (mant as u64)
            * 0x20000000) as u64
    }
}

/// Widens half-precision float bits to double-precision float bits.
pub fn half_bits_to_double_bits(h: u16) -> (r: u64)
    ensures
        r == half_to_double_bits(h),
{
    let sign: u64 = (h / 0x8000) as u64;
    let exp: u16 = (h / 0x400) % 0x20;
    let mant: u16 = h % 0x400;
    if exp == 0x1f {
        sign * 0x8000000000000000 + 0x7ff0000000000000 + (mant as u64) * 0x40000000000
    } else if exp == 0 {
        if mant == 0 {
            sign * 0x8000000000000000
        } else {
            let mut mm: u16 = mant;
            let mut e: i32 = -14;
            let ghost mut steps: nat = 0;
            proof {
                assert(normalize16(mant, -14) == normalize16(mm, e as int));
                vstd::arithmetic::power2::lemma2_to64();
            }
            while mm < 0x400
                invariant
                    0 < mm < 0x800,
                    steps <= 10,
                    e as int == -14 - steps,
                    pow2(steps) <= mm,
                    normalize16(mant, -14) == normalize16(mm, e as int),
                decreases 10 - steps,
            {
                proof {
                    assert(pow2(steps + 1) == 2 * pow2(steps)) by {
                        vstd::arithmetic::power2::lemma_pow2_unfold((steps + 1) as nat);
                    }
                    assert(steps < 10) by {
                        if steps >= 10 {
                            vstd::arithmetic::power2::lemma2_to64();
                            if steps + 1 > 11 {
                                vstd::arithmetic::power2::lemma_pow2_strictly_increases(
                                    11,
                                    (steps + 1) as nat,
                                );
                            }
                        }
                    }
                    steps = steps + 1;
                }
                mm = mm * 2;
                e = e - 1;
            }
            proof {
                assert(normalize16(mm, e as int) == (mm, e as int));
            }
            sign * 0x8000000000000000 + ((e + 1023) as u64) * 0x10000000000000 + ((mm
                % 0x400) as u64) * 0x40000000000
        }
    } else {
        sign * 0x8000000000000000 + ((exp + 1008) as u64) * 0x10000000000000 + (mant as u64)
            * 0x40000000000
    }
}

/// Widens single-precision float bits to double-precision float bits.
pub fn single_bits_to_double_bits(x: u32) -> (r: u64)
    ensures
        r == single_to_double_bits(x),
{
    let sign: u64 = (x / 0x80000000) as u64;
    let exp: u32 = (x / 0x800000) % 0x100;
    let mant: u32 = x % 0x800000;
    if exp == 0xff {
        sign * 0x8000000000000000 + 0x7ff0000000000000 + (mant as u64) * 0x20000000
    } else if exp == 0 {
        if mant == 0 {
            sign * 0x8000000000000000
        } else {
            let mut mm: u32 = mant;
            let mut e: i32 = -126;
            let ghost mut steps: nat = 0;
            proof {
                assert(normalize32(mant, -126) == normalize32(mm, e as int));
                vstd::arithmetic::power2::lemma2_to64();
            }
            while mm < 0x800000
                invariant
                    0 < mm < 0x1000000,
                    steps <= 23,
                    e as int == -126 - steps,
                    pow2(steps) <= mm,
                    normalize32(mant, -126) == normalize32(mm, e as int),
                decreases 23 - steps,
            {
                proof {
                    assert(pow2(steps + 1) == 2 * pow2(steps)) by {
                        vstd::arithmetic::power2::lemma_pow2_unfold((steps + 1) as nat);
                    }
                    assert(steps < 23) by {
                        if steps >= 23 {
                            vstd::arithmetic::power2::lemma2_to64();
                            if steps + 1 > 24 {
                                vstd::arithmetic::power2::lemma_pow2_strictly_increases(
                                    24,
                                    (steps + 1) as nat,
                                );
                            }
                        }
                    }
                    steps = steps + 1;
                }
                mm = mm * 2;
                e = e - 1;
            }
            proof {
                assert(normalize32(mm, e as int) == (mm, e as int));
            }
            sign * 0x8000000000000000 + ((e + 1023) as u64) * 0x10000000000000 + ((mm
                % 0x800000) as u64) * 0x20000000
        }
    } else {
        sign * 0x8000000000000000 + ((exp + 896) as u64) * 0x10000000000000 + (mant as u64)
            * 0x20000000
    }
}

} // verus!
