//! Saturating arithmetic on scores.

use vstd::prelude::*;

verus! {

/// The nearest value of 32 bits.
pub open spec fn sat(i: int) -> i32 {
    if i > i32::MAX {
        i32::MAX
    } else if i < i32::MIN {
        i32::MIN
    } else {
        i as i32
    }
}

/// Division by a positive number that rounds toward zero.
pub open spec fn div_toward_zero(a: int, b: int) -> int {
    if a >= 0 {
        a / b
    } else {
        -((-a) / b)
    }
}

/// The larger of two numbers.
pub open spec fn max_int(a: int, b: int) -> int {
    if a >= b {
        a
    } else {
        b
    }
}

/// The smaller of two numbers.
pub open spec fn min_int(a: int, b: int) -> int {
    if a <= b {
        a
    } else {
        b
    }
}

/// A length as a score: the conversion of `usize` to `i32`, exact for every
/// length of at most `i32::MAX`.
pub open spec fn length_i32(n: int) -> i32 {
    (n as usize) as i32
}

/// Converts a length to a score.
pub fn length_as_i32(n: usize) -> (r: i32)
    ensures
        r == length_i32(n as int),
        n <= i32::MAX ==> r == n,
{
    n as i32
}

/// Clamps to 32 bits.
pub fn clamp_i64(i: i64) -> (r: i32)
    ensures
        r == sat(i as int),
{
    if i > i32::MAX as i64 {
        i32::MAX
    } else if i < i32::MIN as i64 {
        i32::MIN
    } else {
        i as i32
    }
}

/// Saturating sum.
pub fn sat_add(a: i32, b: i32) -> (r: i32)
    ensures
        r == sat(a + b),
{
    clamp_i64(a as i64 + b as i64)
}

/// Saturating difference.
pub fn sat_sub(a: i32, b: i32) -> (r: i32)
    ensures
        r == sat(a - b),
{
    clamp_i64(a as i64 - b as i64)
}

/// Saturating product.
pub fn sat_mul(a: i32, b: i32) -> (r: i32)
    ensures
        r == sat(a * b),
{
    proof {
        assert(-0x4000_0000_0000_0000 <= a * b <= 0x4000_0000_0000_0000) by (nonlinear_arith)
            requires
                -0x8000_0000 <= a <= 0x7fff_ffff,
                -0x8000_0000 <= b <= 0x7fff_ffff,
        ;
    }
    clamp_i64((a as i64) * (b as i64))
}

/// Quotient by a positive number, rounded toward zero.
pub fn div_i32(a: i32, b: i32) -> (r: i32)
    requires
        b > 0,
    ensures
        r == div_toward_zero(a as int, b as int),
{
    let x: i64 = a as i64;
    let y: i64 = b as i64;
    proof {
        assert(a >= 0 ==> 0 <= (a as int) / (b as int) <= a) by (nonlinear_arith)
            requires
                b > 0,
        ;
        assert(a < 0 ==> 0 <= (-(a as int)) / (b as int) <= -(a as int)) by (nonlinear_arith)
            requires
                b > 0,
        ;
    }
    if x >= 0 {
        (x / y) as i32
    } else {
        (-((-x) / y)) as i32
    }
}

/// The larger of two scores.
pub fn max_i32(a: i32, b: i32) -> (r: i32)
    ensures
        r == max_int(a as int, b as int),
{
    if a >= b {
        a
    } else {
        b
    }
}

/// A number that is cut to 32 bits stays where it fits, and else becomes the nearest that
/// does.
pub proof fn lemma_cut_to_fit(i: int)
    ensures
        i32::MIN <= i <= i32::MAX ==> sat(i) == i,
        i > i32::MAX ==> sat(i) == i32::MAX,
        i < i32::MIN ==> sat(i) == i32::MIN,
{
}

/// Division toward zero leaves a rest that is smaller than the divisor and has the sign of
/// the dividend.
pub proof fn lemma_division_leaves_a_rest(a: int, b: int)
    requires
        b > 0,
    ensures
        ({
            let rest = a - b * div_toward_zero(a, b);
            &&& a >= 0 ==> 0 <= rest < b
            &&& a <= 0 ==> -b < rest <= 0
        }),
{
    if a >= 0 {
        assert(0 <= a - b * (a / b) < b) by (nonlinear_arith)
            requires
                b > 0,
        ;
    } else {
        let n = -a;
        assert(0 <= n - b * (n / b) < b) by (nonlinear_arith)
            requires
                b > 0,
        ;
        assert(b * (-(n / b)) == -(b * (n / b))) by (nonlinear_arith);
    }
    if a == 0 {
        assert(0int / b == 0) by (nonlinear_arith)
            requires
                b > 0,
        ;
        assert(b * 0 == 0) by (nonlinear_arith);
    }
}

} // verus!
