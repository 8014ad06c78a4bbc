//! Total-order keys for floating-point categories.
//!
//! A category is an `f64` given by its bit pattern. Its key is a `u64` whose
//! unsigned order is the total order of the categories: negative values below
//! positive ones, `-0.0` and `+0.0` one key, every NaN one key above all
//! other values.
use vstd::prelude::*;

verus! {

/// The sign bit of an `f64`.
pub const SIGN_BIT: u64 = 0x8000_0000_0000_0000;

/// The exponent field of an `f64`.
pub const EXPONENT_BITS: u64 = 0x7ff0_0000_0000_0000;

/// The fraction field of an `f64`.
pub const FRACTION_BITS: u64 = 0x000f_ffff_ffff_ffff;

/// The key of every NaN.
pub const NAN_KEY: u64 = 0xffff_ffff_ffff_ffff;

/// The `f64` with bit pattern `bits` is a NaN.
pub open spec fn is_nan(bits: u64) -> bool {
    bits & EXPONENT_BITS == EXPONENT_BITS && bits & FRACTION_BITS != 0
}

/// The `f64` with bit pattern `bits` is `+0.0` or `-0.0`.
pub open spec fn is_zero(bits: u64) -> bool {
    bits & !SIGN_BIT == 0
}

/// The `f64` with bit pattern `bits` is greater than zero (`+inf` included).
pub open spec fn is_positive(bits: u64) -> bool {
    bits & SIGN_BIT == 0 && !is_zero(bits) && !is_nan(bits)
}

/// The total-order key of the category with bit pattern `bits`.
pub open spec fn order_key(bits: u64) -> u64 {
    if is_nan(bits) {
        NAN_KEY
    } else if is_zero(bits) {
        SIGN_BIT
    } else if bits & SIGN_BIT != 0 {
        !bits
    } else {
        bits | SIGN_BIT
    }
}

/// The key of the category whose `f64` bit pattern is `bits`.
pub fn category_key(bits: u64) -> (k: u64)
    ensures
        k == order_key(bits),
{
    if bits & EXPONENT_BITS == EXPONENT_BITS && bits & FRACTION_BITS != 0 {
        NAN_KEY
    } else if bits & !SIGN_BIT == 0 {
        SIGN_BIT
    } else if bits & SIGN_BIT != 0 {
        !bits
    } else {
        bits | SIGN_BIT
    }
}

/// Whether the `f64` with bit pattern `bits` is greater than zero.
pub fn positive(bits: u64) -> (r: bool)
    ensures
        r == is_positive(bits),
{
    bits & SIGN_BIT == 0 && bits & !SIGN_BIT != 0 && !(bits & EXPONENT_BITS == EXPONENT_BITS
        && bits & FRACTION_BITS != 0)
}

/// Two categories share a key exactly when both are NaN, both are zeros of
/// either sign, or their bit patterns are equal.
pub proof fn lemma_key_equality(a: u64, b: u64)
    ensures
        order_key(a) == order_key(b) <==> (is_nan(a) && is_nan(b)) || (is_zero(a) && is_zero(b))
            || a == b,
{
    assert(order_key(a) == order_key(b) <==> (is_nan(a) && is_nan(b)) || (is_zero(a) && is_zero(b))
        || a == b) by (bit_vector);
}

/// The key order is the order of the values: every NaN lies above every other
/// value, a negative non-zero value below every non-negative one, non-negative
/// values rise with their bit pattern and negative ones fall with it.
pub proof fn lemma_key_order(a: u64, b: u64)
    ensures
        !is_nan(a) && is_nan(b) ==> order_key(a) < order_key(b),
        !is_nan(a) && !is_nan(b) && a & SIGN_BIT != 0 && !is_zero(a) && b & SIGN_BIT == 0
            ==> order_key(a) < order_key(b),
        !is_nan(a) && !is_nan(b) && a & SIGN_BIT == 0 && b & SIGN_BIT == 0 ==> (order_key(a)
            < order_key(b) <==> a < b),
        !is_nan(a) && !is_nan(b) && a & SIGN_BIT != 0 && b & SIGN_BIT != 0 && !is_zero(a)
            && !is_zero(b) ==> (order_key(a) < order_key(b) <==> a > b),
{
    assert(!is_nan(a) && is_nan(b) ==> order_key(a) < order_key(b)) by (bit_vector);
    assert(!is_nan(a) && !is_nan(b) && a & SIGN_BIT != 0 && !is_zero(a) && b & SIGN_BIT == 0
        ==> order_key(a) < order_key(b)) by (bit_vector);
    assert(!is_nan(a) && !is_nan(b) && a & SIGN_BIT == 0 && b & SIGN_BIT == 0 ==> (order_key(a)
        < order_key(b) <==> a < b)) by (bit_vector);
    assert(!is_nan(a) && !is_nan(b) && a & SIGN_BIT != 0 && b & SIGN_BIT != 0 && !is_zero(a)
        && !is_zero(b) ==> (order_key(a) < order_key(b) <==> a > b)) by (bit_vector);
}

} // verus!
