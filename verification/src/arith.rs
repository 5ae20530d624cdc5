use vstd::prelude::*;

verus! {

/// The integer `v` brought into the range of `i32`.
pub open spec fn sat(v: int) -> int {
    if v > i32::MAX {
        i32::MAX as int
    } else if v < i32::MIN {
        i32::MIN as int
    } else {
        v
    }
}

/// The sum of `a` and `b`, held at the ends of `i32` where it would leave
/// the range.
pub fn sat_add(a: i32, b: i32) -> (r: i32)
    ensures
        r == sat(a + b),
{
    let wide: i64 = a as i64 + b as i64;
    if wide > i32::MAX as i64 {
        i32::MAX
    } else if wide < i32::MIN as i64 {
        i32::MIN
    } else {
        wide as i32
    }
}

/// The product of `a` and `b`, held at the ends of `i32` where it would
/// leave the range.
pub fn sat_mul(a: i32, b: i32) -> (r: i32)
    ensures
        r == sat(a * b),
{
    assert(-0x4000_0000_0000_0000 <= (a as int) * (b as int) <= 0x4000_0000_0000_0000)
        by (nonlinear_arith)
        requires
            -0x8000_0000 <= a as int <= 0x7fff_ffff,
            -0x8000_0000 <= b as int <= 0x7fff_ffff,
    ;
    let wide: i64 = a as i64 * b as i64;
    if wide > i32::MAX as i64 {
        i32::MAX
    } else if wide < i32::MIN as i64 {
        i32::MIN
    } else {
        wide as i32
    }
}

} // verus!
