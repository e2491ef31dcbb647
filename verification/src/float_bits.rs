//! Floating-point numbers as IEEE 754 bit patterns.
use vstd::prelude::*;

verus! {

/// The largest finite single-precision number. As a distance it marks a place in a
/// result that holds no row.
pub const F32_MAX: u32 = 0x7F7F_FFFF;

/// The bits of a single-precision number without its sign.
pub open spec fn f32_magnitude(bits: u32) -> int {
    if bits >= 0x8000_0000 {
        bits - 0x8000_0000
    } else {
        bits as int
    }
}

/// Whether a single-precision number is neither infinite nor NaN.
pub open spec fn f32_finite(bits: u32) -> bool {
    f32_magnitude(bits) < 0x7F80_0000
}

/// Whether a single-precision number is NaN.
pub open spec fn f32_nan(bits: u32) -> bool {
    f32_magnitude(bits) > 0x7F80_0000
}

/// An integer that stands for a single-precision number which is not NaN: one number is
/// less than another if and only if its integer is.
pub open spec fn f32_key(bits: u32) -> int {
    if bits >= 0x8000_0000 {
        -f32_magnitude(bits)
    } else {
        f32_magnitude(bits)
    }
}

/// Whether `a < b` holds of two single-precision numbers. It never holds of NaN.
pub open spec fn f32_less(a: u32, b: u32) -> bool {
    !f32_nan(a) && !f32_nan(b) && f32_key(a) < f32_key(b)
}

/// Whether `a == b` holds of two single-precision numbers. It never holds of NaN.
pub open spec fn f32_equal(a: u32, b: u32) -> bool {
    !f32_nan(a) && !f32_nan(b) && f32_key(a) == f32_key(b)
}

/// Decides [`f32_finite`].
pub fn f32_is_finite(bits: u32) -> (result: bool)
    ensures
        result == f32_finite(bits),
{
    if bits >= 0x8000_0000 {
        bits - 0x8000_0000 < 0x7F80_0000
    } else {
        bits < 0x7F80_0000
    }
}

/// Decides [`f32_nan`].
pub fn f32_is_nan(bits: u32) -> (result: bool)
    ensures
        result == f32_nan(bits),
{
    if bits >= 0x8000_0000 {
        bits - 0x8000_0000 > 0x7F80_0000
    } else {
        bits > 0x7F80_0000
    }
}

/// Computes [`f32_key`].
pub fn f32_order_key(bits: u32) -> (key: i64)
    ensures
        key == f32_key(bits),
{
    if bits >= 0x8000_0000 {
        -((bits - 0x8000_0000) as i64)
    } else {
        bits as i64
    }
}

/// Decides [`f32_less`].
pub fn f32_is_less(a: u32, b: u32) -> (result: bool)
    ensures
        result == f32_less(a, b),
{
    !f32_is_nan(a) && !f32_is_nan(b) && f32_order_key(a) < f32_order_key(b)
}

/// How a single-precision number that is not finite is written.
pub open spec fn f32_not_finite_text(bits: u32) -> Seq<char> {
    if f32_nan(bits) {
        "NaN"@
    } else if bits >= 0x8000_0000 {
        "-inf"@
    } else {
        "inf"@
    }
}

/// Writes a single-precision number that is not finite.
pub fn write_f32_not_finite(bits: u32) -> (text: &'static str)
    ensures
        text@ == f32_not_finite_text(bits),
{
    if f32_is_nan(bits) {
        "NaN"
    } else if bits >= 0x8000_0000 {
        "-inf"
    } else {
        "inf"
    }
}

/// Whether a double-precision number is finite and greater than zero.
pub open spec fn f64_positive(bits: u64) -> bool {
    0 < bits < 0x7FF0_0000_0000_0000
}

/// Decides [`f64_positive`].
pub fn f64_is_positive(bits: u64) -> (result: bool)
    ensures
        result == f64_positive(bits),
{
    0 < bits && bits < 0x7FF0_0000_0000_0000
}

/// The order of bit patterns is the order of the numbers, where the key is defined: it is
/// a total order, and the two zeros are the only distinct patterns that share a key.
pub proof fn law_key_separates_numbers(a: u32, b: u32)
    requires
        !f32_nan(a),
        !f32_nan(b),
    ensures
        f32_less(a, b) || f32_less(b, a) || f32_equal(a, b),
        f32_equal(a, b) ==> a == b || (f32_magnitude(a) == 0 && f32_magnitude(b) == 0),
{
}

} // verus!
