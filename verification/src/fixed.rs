//! Fixed-point helpers: integer square roots, rounding toward zero, and
//! products too large for one machine number.
use vstd::prelude::*;

verus! {

/// `r` is the integer square root of `n`: the largest `r` with `r * r <= n`.
pub open spec fn is_sqrt(n: int, r: int) -> bool {
    0 <= r && r * r <= n < (r + 1) * (r + 1)
}

/// The integer square root of `n`, for `n >= 0`.
pub open spec fn sqrt_floor(n: int) -> int {
    choose|r: int| is_sqrt(n, r)
}

/// `a / b` rounded toward zero, for `b > 0`.
pub open spec fn div_toward_zero(a: int, b: int) -> int {
    if a >= 0 {
        a / b
    } else {
        -((-a) / b)
    }
}

/// Squaring keeps the order of numbers from zero on.
proof fn lemma_square_monotone(a: int, b: int)
    requires
        0 <= a <= b,
    ensures
        a * a <= b * b,
{
    assert(a * a <= b * b) by (nonlinear_arith)
        requires
            0 <= a <= b,
    ;
}

/// A number has at most one integer square root.
pub proof fn lemma_sqrt_unique(n: int, r: int, s: int)
    requires
        is_sqrt(n, r),
        is_sqrt(n, s),
    ensures
        r == s,
{
    if r < s {
        lemma_square_monotone(r + 1, s);
    } else if s < r {
        lemma_square_monotone(s + 1, r);
    }
}

/// Every number from zero on has an integer square root.
pub proof fn lemma_sqrt_exists(n: int)
    requires
        0 <= n,
    ensures
        is_sqrt(n, sqrt_floor(n)),
    decreases n,
{
    if n == 0 {
        assert(is_sqrt(0, 0));
    } else {
        lemma_sqrt_exists(n - 1);
        let r = sqrt_floor(n - 1);
        if (r + 1) * (r + 1) <= n {
            assert(n < (r + 2) * (r + 2)) by (nonlinear_arith)
                requires
                    n - 1 < (r + 1) * (r + 1),
                    0 <= r,
            ;
            assert(is_sqrt(n, r + 1));
        } else {
            assert(is_sqrt(n, r));
        }
    }
}

/// What `sqrt_floor` is on a number whose root is known.
pub proof fn lemma_sqrt_floor(n: int, r: int)
    requires
        is_sqrt(n, r),
    ensures
        sqrt_floor(n) == r,
{
    lemma_sqrt_unique(n, r, sqrt_floor(n));
}

/// The integer square root of a square is its base.
pub proof fn lemma_sqrt_of_square(r: int)
    requires
        0 <= r,
    ensures
        sqrt_floor(r * r) == r,
{
    assert(r * r < (r + 1) * (r + 1)) by (nonlinear_arith)
        requires
            0 <= r,
    ;
    lemma_sqrt_floor(r * r, r);
}

/// The base of a number held in two parts: two to the eightieth.
pub const PART: u128 = 0x1_0000_0000_0000_0000_0000;

/// A root is known from products alone: `s` is the integer square root of
/// `x / d` when `s * s * d <= x < (s + 1) * (s + 1) * d`.
pub proof fn lemma_sqrt_of_quotient(x: int, d: int, s: int)
    requires
        0 < d,
        0 <= s,
        s * s * d <= x,
        x < (s + 1) * (s + 1) * d,
    ensures
        sqrt_floor(x / d) == s,
{
    let q = x / d;
    assert(d * q <= x < d * q + d) by (nonlinear_arith)
        requires
            0 < d,
            q == x / d,
    ;
    assert(s * s <= q) by (nonlinear_arith)
        requires
            0 < d,
            s * s * d <= x,
            x < d * q + d,
    ;
    assert(q < (s + 1) * (s + 1)) by (nonlinear_arith)
        requires
            0 < d,
            d * q <= x,
            x < (s + 1) * (s + 1) * d,
    ;
    lemma_sqrt_floor(q, s);
}

/// The product `a * b * m` in two parts: `high * PART + low`, with `low`
/// below `PART`. It is for factors whose product does not fit one number.
pub fn product_in_parts(a: u128, b: u128, m: u128) -> (parts: (u128, u128))
    requires
        a < PART,
        b < PART,
        m <= 0x100_0000_0000,
    ensures
        parts.1 < PART,
        parts.0 * PART + parts.1 == a * b * m,
{
    let half: u128 = 0x100_0000_0000;
    let a1 = a / half;
    let a0 = a % half;
    let b1 = b / half;
    let b0 = b % half;
    assert(a1 * b1 < 0x1_0000_0000_0000_0000_0000 && a1 * b0 < 0x1_0000_0000_0000_0000_0000 && a0
        * b1 < 0x1_0000_0000_0000_0000_0000 && a0 * b0 < 0x1_0000_0000_0000_0000_0000)
        by (nonlinear_arith)
        requires
            0 <= a1 < 0x100_0000_0000,
            0 <= a0 < 0x100_0000_0000,
            0 <= b1 < 0x100_0000_0000,
            0 <= b0 < 0x100_0000_0000,
    ;
    let top = a1 * b1;
    let middle = a1 * b0 + a0 * b1;
    let bottom = a0 * b0;
    let middle1 = middle / half;
    let middle0 = middle % half;
    let high = top + middle1;
    let low = middle0 * half + bottom;
    assert(a * b == high * PART + low) by (nonlinear_arith)
        requires
            a == a1 * 0x100_0000_0000 + a0,
            b == b1 * 0x100_0000_0000 + b0,
            top == a1 * b1,
            middle == a1 * b0 + a0 * b1,
            bottom == a0 * b0,
            middle == middle1 * 0x100_0000_0000 + middle0,
            high == top + middle1,
            low == middle0 * 0x100_0000_0000 + bottom,
            PART == 0x100_0000_0000 * 0x100_0000_0000,
    ;
    assert(high * m <= 0x2_0000_0000_0000_0000_0000 * 0x100_0000_0000 && low * m
        <= 0x2_0000_0000_0000_0000_0000 * 0x100_0000_0000) by (nonlinear_arith)
        requires
            0 <= high <= 0x2_0000_0000_0000_0000_0000,
            0 <= low <= 0x2_0000_0000_0000_0000_0000,
            0 <= m <= 0x100_0000_0000,
    ;
    let high_m = high * m;
    let low_m = low * m;
    let carry = low_m / PART;
    let rest = low_m % PART;
    assert((high_m + carry) * PART + rest == a * b * m) by (nonlinear_arith)
        requires
            a * b == high * PART + low,
            high_m == high * m,
            low_m == low * m,
            low_m == carry * PART + rest,
    ;
    (high_m + carry, rest)
}

} // verus!
