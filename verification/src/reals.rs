//! The precision of the default real field.
//!
//! A real field is determined by its precision in bits, `⌈p·log2(10)⌉` for
//! `p` decimal digits. The reals themselves are multiple precision floating
//! point numbers, which this library does not hold.

use vstd::prelude::*;

use crate::interp::Interp;

verus! {

/// The precision of the default real field at startup, in decimal digits.
pub const DEFAULT_DIGITS: u32 = 30;

/// The precision in bits of the default real field.
pub fn default_bits(it: &Interp) -> (b: u64)
    ensures
        b == it.default_bits,
{
    it.default_bits
}

/// Set the precision in bits of the default real field; the rest of the
/// state stays.
pub fn set_default_bits(it: &mut Interp, bits: u64)
    ensures
        final(it).default_bits == bits,
        final(it).groups == old(it).groups,
{
    it.default_bits = bits;
}

/// The precision of an operation on two numbers, given the precision of
/// each that is real or complex (`None` for integers and rationals): the
/// smaller precision, or the default one when neither has a precision.
pub fn common_bits(it: &Interp, pa: Option<u64>, pb: Option<u64>) -> (b: u64)
    ensures
        b == match (pa, pb) {
            (Some(x), Some(y)) => if x <= y { x } else { y },
            (Some(x), None) => x,
            (None, Some(y)) => y,
            (None, None) => it.default_bits,
        },
{
    match (pa, pb) {
        (Some(x), Some(y)) => if x <= y { x } else { y },
        (Some(x), None) => x,
        (None, Some(y)) => y,
        (None, None) => default_bits(it),
    }
}

/// The number of decimals of a result printed with a fixed number of them
/// (timings, and results computed from them), given that of each operand:
/// the smaller one.
pub fn fixed_of(fa: Option<u32>, fb: Option<u32>) -> (f: Option<u32>)
    ensures
        f == match (fa, fb) {
            (Some(x), Some(y)) => Some(if x <= y { x } else { y }),
            (Some(x), None) => Some(x),
            (None, y) => y,
        },
{
    match (fa, fb) {
        (Some(x), Some(y)) => Some(if x <= y { x } else { y }),
        (x, y) => if x.is_some() { x } else { y },
    }
}

} // verus!
