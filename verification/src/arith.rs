//! Saturating `u32` arithmetic and its mathematical model.

use vstd::prelude::*;

verus! {

/// Clamp a non-negative integer to the `u32` range.
pub open spec fn sat(x: int) -> int {
    if x > u32::MAX {
        u32::MAX as int
    } else {
        x
    }
}

/// Saturating addition.
pub fn sat_add(a: u32, b: u32) -> (r: u32)
    ensures
        r == sat(a + b),
{
    a.saturating_add(b)
}

/// Saturating multiplication.
pub fn sat_mul(a: u32, b: u32) -> (r: u32)
    ensures
        r == sat(a * b),
{
    proof {
        assert(a * b <= (u32::MAX as int) * (u32::MAX as int)) by (nonlinear_arith)
            requires
                a <= u32::MAX,
                b <= u32::MAX,
        ;
        assert(4294967295int * 4294967295int == 18446744065119617025int);
    }
    let wide: u64 = (a as u64) * (b as u64);
    if wide > u32::MAX as u64 {
        u32::MAX
    } else {
        wide as u32
    }
}

/// Absolute difference.
pub fn abs_diff(a: u32, b: u32) -> (r: u32)
    ensures
        r == (if a >= b { a - b } else { b - a }),
{
    if a >= b {
        a - b
    } else {
        b - a
    }
}

} // verus!
