use vstd::prelude::*;

verus! {

/// Fixed-point number of standard width: a 24-bit signed integer part and an
/// 8-bit fractional part, stored as the raw `i32` (the value times 256).
#[derive(Debug, Clone, Copy, PartialEq, Eq, Hash, Structural)]
pub struct F(pub i32);

/// Fixed-point number of double width: a 48-bit signed integer part and a
/// 16-bit fractional part, stored as the raw `i64` (the value times 65536).
#[derive(Debug, Clone, Copy, PartialEq, Eq, Hash, Structural)]
pub struct FD(pub i64);

/// The greatest integer that `F` can hold: `i32::MAX >> 8`.
pub const F_MAX_INT: i32 = 8388607;

/// The least integer that `F` can hold: `i32::MIN >> 8`.
pub const F_MIN_INT: i32 = -8388608;

/// The fixed-point number equal to the integer `num`.
pub fn f_i32(num: i32) -> (f: F)
    requires
        F_MIN_INT <= num <= F_MAX_INT,
    ensures
        f.0 == num * 256,
{
    F(num * 256)
}

} // verus!
