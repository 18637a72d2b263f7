//! Fixed-point quantities.
//!
//! Lengths, lanes, speeds, times, stats and effect strengths are whole numbers
//! of billionths: [`ONE`] is one metre, one second, one metre per second, one
//! point. Sums and products that leave the 64-bit range stop at its ends, so
//! every operation is total.
use vstd::prelude::*;

verus! {

/// One unit (a metre, a second, a point), in billionths.
pub const ONE: i64 = 1_000_000_000;

/// The largest quantity.
pub const QUANTITY_MAX: i64 = 0x7fff_ffff_ffff_ffff;

/// The smallest quantity.
pub const QUANTITY_MIN: i64 = -0x8000_0000_0000_0000;

/// `x` held inside the range of a quantity.
pub open spec fn sat(x: int) -> int {
    if x > QUANTITY_MAX {
        QUANTITY_MAX as int
    } else if x < QUANTITY_MIN {
        QUANTITY_MIN as int
    } else {
        x
    }
}

/// The distance of `x` from zero.
pub open spec fn magnitude(x: int) -> int {
    if x < 0 {
        -x
    } else {
        x
    }
}

/// `n / d` to the nearest whole number, halves away from zero.
pub open spec fn rounded_quotient(n: int, d: int) -> int
    recommends
        d > 0,
{
    let m = magnitude(n);
    let nearest = m / d + if 2 * (m % d) >= d {
        1int
    } else {
        0int
    };
    if n < 0 {
        -nearest
    } else {
        nearest
    }
}

/// The product of two quantities.
pub open spec fn product(a: int, b: int) -> int {
    sat(rounded_quotient(a * b, ONE as int))
}

/// The larger of two numbers.
pub open spec fn larger(a: int, b: int) -> int {
    if a >= b {
        a
    } else {
        b
    }
}

/// `x`, held inside the range of a quantity.
pub fn clamp_wide(x: i128) -> (r: i64)
    ensures
        r == sat(x as int),
{
    if x > QUANTITY_MAX as i128 {
        QUANTITY_MAX
    } else if x < QUANTITY_MIN as i128 {
        QUANTITY_MIN
    } else {
        x as i64
    }
}

/// `a + b`.
pub fn plus(a: i64, b: i64) -> (r: i64)
    ensures
        r == sat(a + b),
{
    clamp_wide(a as i128 + b as i128)
}

/// `a - b`.
pub fn minus(a: i64, b: i64) -> (r: i64)
    ensures
        r == sat(a - b),
{
    clamp_wide(a as i128 - b as i128)
}

/// `-a`.
pub fn negated(a: i64) -> (r: i64)
    ensures
        r == sat(-a),
{
    clamp_wide(-(a as i128))
}

/// The larger of two quantities.
pub fn max_quantity(a: i64, b: i64) -> (r: i64)
    ensures
        r == larger(a as int, b as int),
{
    if a >= b {
        a
    } else {
        b
    }
}

/// The distance of `x` from zero.
pub fn absolute(x: i128) -> (r: i128)
    requires
        x > i128::MIN,
    ensures
        r == magnitude(x as int),
{
    if x < 0 {
        -x
    } else {
        x
    }
}

/// `n / d` to the nearest whole number, halves away from zero.
pub fn divide_rounded(n: i128, d: i128) -> (r: i128)
    requires
        n > i128::MIN,
        d > 0,
    ensures
        r == rounded_quotient(n as int, d as int),
{
    let m: i128 = absolute(n);
    let q: i128 = m / d;
    let rest: i128 = m % d;
    proof {
        assert(0 <= m / d <= m) by (nonlinear_arith)
            requires
                m >= 0,
                d > 0,
        ;
        assert(0 <= m % d < d);
        if d == 1 {
            assert(m % d == 0);
        } else {
            assert(m / d < i128::MAX) by (nonlinear_arith)
                requires
                    0 <= m <= i128::MAX,
                    d >= 2,
            ;
        }
    }
    let nearest: i128 = if rest >= d - rest {
        q + 1
    } else {
        q
    };
    if n < 0 {
        -nearest
    } else {
        nearest
    }
}

/// `a * b`.
pub fn times(a: i64, b: i64) -> (r: i64)
    ensures
        r == product(a as int, b as int),
{
    let p: i128 = wide_product(a, b);
    clamp_wide(divide_rounded(p, ONE as i128))
}

/// The exact product of the two numbers.
pub fn wide_product(a: i64, b: i64) -> (p: i128)
    ensures
        p == a * b,
        -0x4000_0000_0000_0000_0000_0000_0000_0000 <= p
            <= 0x4000_0000_0000_0000_0000_0000_0000_0000,
{
    proof {
        assert(-0x4000_0000_0000_0000_0000_0000_0000_0000 <= a * b
            <= 0x4000_0000_0000_0000_0000_0000_0000_0000) by (nonlinear_arith)
            requires
                -0x8000_0000_0000_0000 <= a <= 0x7fff_ffff_ffff_ffff,
                -0x8000_0000_0000_0000 <= b <= 0x7fff_ffff_ffff_ffff,
        ;
    }
    a as i128 * b as i128
}

/// A collection's size as a signed count.
pub fn count_of(n: usize) -> (r: i64)
    ensures
        r == sat(n as int),
{
    clamp_wide(n as i128)
}

/// Taking back an amount restores the quantity it was added to, inside the
/// range.
pub proof fn subtracting_undoes_adding(a: int, b: int)
    requires
        QUANTITY_MIN <= a <= QUANTITY_MAX,
        QUANTITY_MIN <= a + b <= QUANTITY_MAX,
    ensures
        sat(sat(a + b) - b) == a,
{
}

/// Whether `q` is `n / d` to the nearest whole number, halves away from zero:
/// what is left over is less than half of `d`, or half of it on the near side.
pub open spec fn is_nearest(q: int, n: int, d: int) -> bool {
    if n >= 0 {
        -d <= 2 * (n - q * d) < d
    } else {
        -d < 2 * (n - q * d) <= d
    }
}

/// A quotient is rounded to the one whole number nearest it.
pub proof fn rounding_is_to_the_nearest(n: int, d: int, q: int)
    requires
        d > 0,
    ensures
        is_nearest(rounded_quotient(n, d), n, d),
        is_nearest(q, n, d) ==> q == rounded_quotient(n, d),
{
    let r = rounded_quotient(n, d);
    let m = magnitude(n);
    vstd::arithmetic::div_mod::lemma_fundamental_div_mod(m, d);
    vstd::arithmetic::div_mod::lemma_mod_division_less_than_divisor(m, d);
    let up: int = if 2 * (m % d) >= d {
        1
    } else {
        0
    };
    assert((m / d + up) * d == d * (m / d) + up * d) by (nonlinear_arith);
    assert((-(m / d + up)) * d == -((m / d + up) * d)) by (nonlinear_arith);
    if is_nearest(q, n, d) && q != r {
        if q < r {
            assert(r * d - q * d >= d) by (nonlinear_arith)
                requires
                    q < r,
                    d > 0,
            ;
        } else {
            assert(q * d - r * d >= d) by (nonlinear_arith)
                requires
                    r < q,
                    d > 0,
            ;
        }
    }
}

/// A quantity that is out of range is held at the end of the range it passed,
/// and any other is left as it is.
pub proof fn a_quantity_is_held_inside_its_range(x: int)
    ensures
        -0x8000_0000_0000_0000 <= sat(x) <= 0x7fff_ffff_ffff_ffff,
        -0x8000_0000_0000_0000 <= x <= 0x7fff_ffff_ffff_ffff ==> sat(x) == x,
        x > 0x7fff_ffff_ffff_ffff ==> sat(x) == 0x7fff_ffff_ffff_ffff,
        x < -0x8000_0000_0000_0000 ==> sat(x) == -0x8000_0000_0000_0000,
{
}

/// Two quantities multiply as the numbers they stand for, to the nearest unit.
pub proof fn quantities_multiply_as_numbers(a: int, b: int, q: int)
    requires
        is_nearest(q, a * b, 1_000_000_000),
        QUANTITY_MIN <= q <= QUANTITY_MAX,
    ensures
        product(a, b) == q,
{
    rounding_is_to_the_nearest(a * b, 1_000_000_000, q);
}

} // verus!
