use vstd::prelude::*;

verus! {

/// The sign bit of a single-precision float's bit pattern.
pub open spec fn sign_bit(bits: u32) -> bool {
    bits & 0x8000_0000 != 0
}

/// The bit pattern without its sign: exponent and fraction.
pub open spec fn magnitude(bits: u32) -> u32 {
    bits & 0x7fff_ffff
}

/// The bit pattern is a NaN: exponent all ones, fraction not zero.
pub open spec fn is_nan_bits(bits: u32) -> bool {
    magnitude(bits) > 0x7f80_0000
}

/// Position of a non-NaN float on the number line: for a fixed sign the
/// magnitude bits grow with the absolute value, and both zeros sit at 0.
pub open spec fn rank(bits: u32) -> int {
    if sign_bit(bits) {
        -(magnitude(bits) as int)
    } else {
        magnitude(bits) as int
    }
}

/// IEEE 754 `a < b` for the floats whose bit patterns are `a` and `b`:
/// false when either is a NaN.
pub open spec fn float_lt(a: u32, b: u32) -> bool {
    !is_nan_bits(a) && !is_nan_bits(b) && rank(a) < rank(b)
}

/// The depth test: whether the sample with bits `a` lies strictly nearer
/// than the one with bits `b`, as single-precision `a < b`.
pub fn depth_less(a: u32, b: u32) -> (r: bool)
    ensures
        r == float_lt(a, b),
{
    let ma = a & 0x7fff_ffff;
    let mb = b & 0x7fff_ffff;
    if ma > 0x7f80_0000 || mb > 0x7f80_0000 {
        return false;
    }
    let neg_a = a & 0x8000_0000 != 0;
    let neg_b = b & 0x8000_0000 != 0;
    if neg_a {
        if neg_b {
            mb < ma
        } else {
            ma != 0 || mb != 0
        }
    } else {
        if neg_b {
            false
        } else {
            ma < mb
        }
    }
}

} // verus!
