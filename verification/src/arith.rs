//! Arithmetic on signed 32-bit integers, for results that fit.

use vstd::prelude::*;

verus! {

/// How many numbers a caller is expected to produce or process at a time.
pub const NUMBERS: u32 = 10000;

/// The sum of `a` and `b`.
pub fn add(a: i32, b: i32) -> (sum: i32)
    requires
        i32::MIN <= a + b <= i32::MAX,
    ensures
        sum == a + b,
{
    a + b
}

/// The difference of `a` and `b`.
pub fn subtract(a: i32, b: i32) -> (difference: i32)
    requires
        i32::MIN <= a - b <= i32::MAX,
    ensures
        difference == a - b,
{
    a - b
}

/// The product of `a` and `b`.
pub fn multiply(a: i32, b: i32) -> (product: i32)
    requires
        i32::MIN <= a * b <= i32::MAX,
    ensures
        product == a * b,
{
    a * b
}

} // verus!
