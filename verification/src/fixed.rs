//! Signed fixed-point numbers with six decimal places.
//!
//! A [`Fixed`] holds a count of millionths in an `i64`. Results that leave
//! the representable range saturate at its ends; quotients round toward zero.

use vstd::arithmetic::div_mod::{lemma_div_is_ordered, lemma_div_multiples_vanish};
use vstd::arithmetic::mul::lemma_mul_inequality;
use vstd::prelude::*;

verus! {

/// The raw count that stands for the number one.
pub const SCALE: i64 = 1_000_000;

/// A fixed-point number: `raw` millionths.
#[derive(Clone, Copy, Debug, PartialEq, Eq, Structural)]
pub struct Fixed {
    pub raw: i64,
}

/// The nearest representable raw count to `x`.
pub open spec fn clamp(x: int) -> int {
    if x < i64::MIN {
        i64::MIN as int
    } else if x > i64::MAX {
        i64::MAX as int
    } else {
        x
    }
}

/// The magnitude of `x`.
pub open spec fn abs(x: int) -> int {
    if x < 0 {
        -x
    } else {
        x
    }
}

/// The quotient of `n` by `d`, which is not zero, rounded toward zero.
pub open spec fn quot(n: int, d: int) -> int
    recommends
        d != 0,
{
    if d > 0 {
        if n >= 0 {
            n / d
        } else {
            -((-n) / d)
        }
    } else {
        if n >= 0 {
            -(n / (-d))
        } else {
            (-n) / (-d)
        }
    }
}

/// Raw count of the sum of two fixed-point numbers.
pub open spec fn sum_raw(a: int, b: int) -> int {
    clamp(a + b)
}

/// Raw count of a number whose raw count times `SCALE` is `p`: a product of
/// two raw counts, brought back to the scale of one.
pub open spec fn rescale(p: int) -> int {
    clamp(quot(p, SCALE as int))
}

/// Raw count of the product of two fixed-point numbers.
pub open spec fn product_raw(a: int, b: int) -> int {
    rescale(a * b)
}

/// Raw count of the fraction `n / d`, where `d` is not zero.
pub open spec fn ratio_raw(n: int, d: int) -> int
    recommends
        d != 0,
{
    clamp(quot(n * SCALE, d))
}

/// `r` is the integer square root of `n`, rounded down.
pub open spec fn is_floor_sqrt(n: int, r: int) -> bool {
    0 <= r && r * r <= n < (r + 1) * (r + 1)
}

/// The integer square root of `n`, rounded down (for `n >= 0`).
pub open spec fn floor_sqrt(n: int) -> int {
    choose|r: int| is_floor_sqrt(n, r)
}

/// Squaring keeps the order of numbers that are not negative.
pub proof fn lemma_square_monotonic(a: int, b: int)
    by (nonlinear_arith)
    requires
        0 <= a <= b,
    ensures
        0 <= a * a <= b * b,
{
}

/// A number and its magnitude have the same square.
pub proof fn lemma_square_of_abs(x: int)
    by (nonlinear_arith)
    ensures
        abs(x) * abs(x) == x * x,
{
}

/// A number has at most one rounded-down square root, and `floor_sqrt` is it.
pub proof fn lemma_floor_sqrt_unique(n: int, r: int)
    requires
        is_floor_sqrt(n, r),
    ensures
        floor_sqrt(n) == r,
{
    let s = floor_sqrt(n);
    assert(is_floor_sqrt(n, s));
    if s < r {
        lemma_square_monotonic(s + 1, r);
    } else if r < s {
        lemma_square_monotonic(r + 1, s);
    }
}

/// Every number that is not negative has a rounded-down square root.
pub proof fn lemma_floor_sqrt_exists(n: int)
    requires
        0 <= n,
    ensures
        is_floor_sqrt(n, floor_sqrt(n)),
    decreases n,
{
    if n == 0 {
        assert(is_floor_sqrt(0, 0));
    } else {
        lemma_floor_sqrt_exists(n - 1);
        let s = floor_sqrt(n - 1);
        if (s + 1) * (s + 1) <= n {
            assert((s + 2) * (s + 2) > n) by (nonlinear_arith)
                requires
                    (s + 1) * (s + 1) > n - 1,
                    s >= 0,
            ;
            assert(is_floor_sqrt(n, s + 1));
        } else {
            assert(is_floor_sqrt(n, s));
        }
    }
}

/// The rounded-down square root of a number is at least `r` when the number
/// is at least the square of `r`.
pub proof fn lemma_floor_sqrt_at_least(n: int, r: int)
    requires
        0 <= r,
        r * r <= n,
    ensures
        r <= floor_sqrt(n),
{
    lemma_square_monotonic(0, r);
    lemma_floor_sqrt_exists(n);
    let s = floor_sqrt(n);
    if s < r {
        lemma_square_monotonic(s + 1, r);
    }
}

/// A part of a whole is a fraction between zero and one: none of it is zero,
/// all of it is one.
pub proof fn lemma_ratio_of_part(n: int, d: int)
    requires
        0 <= n <= d,
        0 < d,
    ensures
        0 <= ratio_raw(n, d) <= SCALE,
        n == 0 ==> ratio_raw(n, d) == 0,
        n == d ==> ratio_raw(n, d) == SCALE,
{
    lemma_mul_inequality(0, n, SCALE as int);
    lemma_mul_inequality(n, d, SCALE as int);
    lemma_div_is_ordered(0, n * SCALE, d);
    lemma_div_is_ordered(n * SCALE, d * SCALE, d);
    lemma_div_multiples_vanish(SCALE as int, d);
}

/// Dividing by one changes nothing.
pub proof fn lemma_ratio_by_one(v: int)
    ensures
        ratio_raw(v, SCALE as int) == clamp(v),
{
    assert(v * SCALE == SCALE * v) by (nonlinear_arith);
    assert((-(v * SCALE)) == SCALE * (-v)) by (nonlinear_arith);
    lemma_div_multiples_vanish(v, SCALE as int);
    lemma_div_multiples_vanish(-v, SCALE as int);
}

/// The product of a weight that is not negative with a fraction between
/// zero and one lies between zero and the weight.
pub proof fn lemma_product_of_share(m: int, w: int)
    requires
        0 <= m <= SCALE,
        0 <= w <= i64::MAX,
    ensures
        0 <= product_raw(m, w) <= w,
{
    lemma_mul_inequality(0, m, w);
    lemma_mul_inequality(m, SCALE as int, w);
    lemma_div_is_ordered(0, m * w, SCALE as int);
    lemma_div_is_ordered(m * w, SCALE * w, SCALE as int);
    lemma_div_multiples_vanish(w, SCALE as int);
}

/// Narrows a wide count to the representable range.
pub fn saturate(x: i128) -> (r: i64)
    ensures
        r == clamp(x as int),
{
    if x < i64::MIN as i128 {
        i64::MIN
    } else if x > i64::MAX as i128 {
        i64::MAX
    } else {
        x as i64
    }
}

/// The magnitude of a wide count.
pub(crate) fn magnitude(x: i128) -> (m: u128)
    requires
        x > i128::MIN,
    ensures
        m == abs(x as int),
{
    if x < 0 {
        (-x) as u128
    } else {
        x as u128
    }
}

/// Divides one wide count by another, rounding toward zero.
pub(crate) fn quotient(n: i128, d: i128) -> (q: i128)
    requires
        d != 0,
        n > i128::MIN,
        d > i128::MIN,
    ensures
        q == quot(n as int, d as int),
{
    let m: u128 = magnitude(n) / magnitude(d);
    if (n >= 0) == (d > 0) {
        m as i128
    } else {
        -(m as i128)
    }
}

/// A wide count, times the count that stands for one.
fn scale_up(n: i128) -> (p: i128)
    requires
        -0x1_0000_0000_0000_0000_0000 <= n <= 0x1_0000_0000_0000_0000_0000,
    ensures
        p == n * SCALE,
{
    n * 1_000_000
}

/// Brings a product of two raw counts back to the scale of one.
pub fn rescale_wide(p: i128) -> (r: i64)
    ensures
        r == rescale(p as int),
{
    if p == i128::MIN {
        i64::MIN
    } else {
        saturate(quotient(p, 1_000_000))
    }
}

/// The product of two raw counts fits a wide count with room to spare.
pub proof fn lemma_product_bounds(a: i64, b: i64)
    ensures
        -0x4000_0000_0000_0000_0000_0000_0000_0000 <= a * b
            <= 0x4000_0000_0000_0000_0000_0000_0000_0000,
{
    assert(-0x4000_0000_0000_0000_0000_0000_0000_0000 <= a * b
        <= 0x4000_0000_0000_0000_0000_0000_0000_0000) by (nonlinear_arith)
        requires
            -0x8000_0000_0000_0000 <= a <= 0x8000_0000_0000_0000,
            -0x8000_0000_0000_0000 <= b <= 0x8000_0000_0000_0000,
    ;
}

/// The fraction `n / d` of two wide counts, as a raw fixed-point count.
pub(crate) fn ratio(n: i128, d: i128) -> (r: i64)
    requires
        d != 0,
        d > i128::MIN,
        -0x1_0000_0000_0000_0000_0000 <= n <= 0x1_0000_0000_0000_0000_0000,
    ensures
        r == ratio_raw(n as int, d as int),
{
    saturate(quotient(scale_up(n), d))
}

/// The square root of `n`, rounded down.
pub fn isqrt(n: u128) -> (r: u64)
    ensures
        r == floor_sqrt(n as int),
{
    let mut lo: u128 = 0;
    let mut hi: u128 = 0x1_0000_0000_0000_0000;
    assert(0x1_0000_0000_0000_0000int * 0x1_0000_0000_0000_0000int > u128::MAX);
    while hi - lo > 1
        invariant
            lo < hi <= 0x1_0000_0000_0000_0000,
            lo * lo <= n < hi * hi,
        decreases hi - lo,
    {
        let mid: u128 = lo + (hi - lo) / 2;
        assert(mid * mid <= 0xffff_ffff_ffff_ffff * 0xffff_ffff_ffff_ffff) by (nonlinear_arith)
            requires
                0 <= mid <= 0xffff_ffff_ffff_ffff,
        ;
        if mid * mid <= n {
            lo = mid;
        } else {
            hi = mid;
        }
    }
    proof {
        lemma_floor_sqrt_unique(n as int, lo as int);
    }
    lo as u64
}

impl Fixed {
    /// The whole number `n`.
    pub fn from_int(n: i64) -> (r: Fixed)
        ensures
            r.raw == clamp(n * SCALE),
    {
        Fixed { raw: saturate(scale_up(n as i128)) }
    }

    /// The whole number `n`, a length or an index.
    pub fn from_usize(n: usize) -> (r: Fixed)
        ensures
            r.raw == clamp(n * SCALE),
    {
        Fixed { raw: saturate(scale_up(n as i128)) }
    }

    /// The fraction `n / d`, where `d` is not zero.
    pub fn from_ratio(n: i64, d: i64) -> (r: Fixed)
        requires
            d != 0,
        ensures
            r.raw == ratio_raw(n as int, d as int),
    {
        Fixed { raw: ratio(n as i128, d as i128) }
    }

    /// The sum of two numbers.
    pub fn plus(self, rhs: Fixed) -> (r: Fixed)
        ensures
            r.raw == sum_raw(self.raw as int, rhs.raw as int),
    {
        Fixed { raw: saturate((self.raw as i128) + (rhs.raw as i128)) }
    }

    /// The product of two numbers.
    pub fn times(self, rhs: Fixed) -> (r: Fixed)
        ensures
            r.raw == product_raw(self.raw as int, rhs.raw as int),
    {
        proof {
            lemma_product_bounds(self.raw, rhs.raw);
        }
        Fixed { raw: rescale_wide((self.raw as i128) * (rhs.raw as i128)) }
    }
}

} // verus!
